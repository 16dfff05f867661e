//! A word-aligned hybrid ("Concise") bitset builder.
//!
//! Positions are appended in strictly increasing order and packed into a
//! stream of 32-bit words. A word whose top bit is set is a literal holding a
//! 31-bit block; any other word is a fill covering `L + 1` uniform blocks.
use vstd::prelude::*;

verus! {

/// A literal with no bit set.
pub const ALL_ZEROS_LITERAL: u32 = 0x8000_0000;

/// A literal with all 31 bits set.
pub const ALL_ONES_LITERAL: u32 = 0xFFFF_FFFF;

/// The bit that marks a fill of ones.
pub const ONE_FILL_BIT: u32 = 0x4000_0000;

/// Largest value of the 25-bit length counter of a fill.
pub const MAX_FILL_LEN: u32 = 0x01FF_FFFF;

/// Positions at or above this bound do not fit the 25-bit length counter.
pub const POSITION_LIMIT: i32 = 1_040_187_392;

/// Top bit set: a literal.
pub open spec fn is_literal(w: u32) -> bool {
    w >= ALL_ZEROS_LITERAL
}

/// Top bits `00`: a fill of zeros.
pub open spec fn is_zero_fill(w: u32) -> bool {
    w < ONE_FILL_BIT
}

/// Top bits `01`: a fill of ones.
pub open spec fn is_one_fill(w: u32) -> bool {
    ONE_FILL_BIT <= w < ALL_ZEROS_LITERAL
}

/// The 25-bit length counter of a fill word.
pub open spec fn fill_len(w: u32) -> u32 {
    w & MAX_FILL_LEN
}

/// A literal whose only set bit is at `b`.
pub open spec fn literal_with_bit(b: u32) -> u32 {
    ALL_ZEROS_LITERAL | (1u32 << b)
}

/// The 31-bit bitmap of a literal.
pub open spec fn literal_bits(w: u32) -> u32 {
    w & 0x7FFF_FFFF
}

/// A nonzero `x` has exactly one bit set.
pub open spec fn at_most_one_bit(x: u32) -> bool {
    x & ((x - 1) as u32) == 0
}

/// A literal with exactly one set bit among its 31.
pub open spec fn single_set_bit(w: u32) -> bool {
    is_literal(w) && w != ALL_ZEROS_LITERAL && at_most_one_bit(literal_bits(w))
}

/// A literal with exactly one cleared bit among its 31.
pub open spec fn single_clear_bit(w: u32) -> bool {
    is_literal(w) && w != ALL_ONES_LITERAL && at_most_one_bit(!w)
}

/// A fill word: `one` selects the polarity, `len` is the length counter and
/// `flip` the 1-based index of the flipped bit (0 for none).
pub open spec fn fill_word(one: bool, len: u32, flip: u32) -> u32 {
    (if one { ONE_FILL_BIT } else { 0u32 }) | len | (flip << 25u32)
}

/// The word stream after appending literal `w`, with the merge rules applied.
pub open spec fn push_literal(ws: Seq<u32>, w: u32) -> Seq<u32> {
    if ws.len() == 1 && w == ALL_ZEROS_LITERAL && ws[0] == MAX_FILL_LEN {
        ws
    } else if ws.len() == 0 {
        seq![w]
    } else {
        let t = ws.last();
        let init = ws.drop_last();
        if w == ALL_ZEROS_LITERAL {
            if t == ALL_ZEROS_LITERAL {
                init.push(fill_word(false, 1, 0))
            } else if is_zero_fill(t) && fill_len(t) < MAX_FILL_LEN {
                init.push((t + 1) as u32)
            } else if single_set_bit(t) {
                init.push(fill_word(false, 1, (1 + t.trailing_zeros()) as u32))
            } else {
                ws.push(w)
            }
        } else if w == ALL_ONES_LITERAL {
            if t == ALL_ONES_LITERAL {
                init.push(fill_word(true, 1, 0))
            } else if is_one_fill(t) && fill_len(t) < MAX_FILL_LEN {
                init.push((t + 1) as u32)
            } else if single_clear_bit(t) {
                init.push(fill_word(true, 1, (1 + (!t).trailing_zeros()) as u32))
            } else {
                ws.push(w)
            }
        } else {
            ws.push(w)
        }
    }
}

/// The word stream after appending a fill of `length` blocks of polarity
/// `one`, with the merge rules applied.
pub open spec fn push_fill(ws: Seq<u32>, length: u32, one: bool) -> Seq<u32> {
    if length == 1 {
        push_literal(ws, if one { ALL_ONES_LITERAL } else { ALL_ZEROS_LITERAL })
    } else if ws.len() == 0 {
        seq![fill_word(one, (length - 1) as u32, 0)]
    } else {
        let t = ws.last();
        let init = ws.drop_last();
        if is_literal(t) {
            if !one && t == ALL_ZEROS_LITERAL {
                init.push(fill_word(false, length, 0))
            } else if one && t == ALL_ONES_LITERAL {
                init.push(fill_word(true, length, 0))
            } else if !one && single_set_bit(t) {
                init.push(fill_word(false, length, (1 + t.trailing_zeros()) as u32))
            } else if one && single_clear_bit(t) {
                init.push(fill_word(true, length, (1 + (!t).trailing_zeros()) as u32))
            } else {
                ws.push(fill_word(one, (length - 1) as u32, 0))
            }
        } else if is_one_fill(t) == one && fill_len(t) + length <= MAX_FILL_LEN {
            init.push((t + length) as u32)
        } else {
            ws.push(fill_word(one, (length - 1) as u32, 0))
        }
    }
}

/// Mathematical state of a builder: the used words, the last position
/// appended (-1 when none) and the number of positions appended.
pub struct ConciseModel {
    pub words: Seq<u32>,
    pub last: int,
    pub size: nat,
}

/// The word stream after appending position `i` to `ws`, whose last
/// position is `last`.
pub open spec fn append_words(ws: Seq<u32>, last: int, i: int) -> Seq<u32> {
    if ws.len() == 0 {
        let zero_blocks = i / 31;
        let lit = literal_with_bit((i % 31) as u32);
        if zero_blocks == 0 {
            seq![lit]
        } else if zero_blocks == 1 {
            seq![ALL_ZEROS_LITERAL, lit]
        } else {
            seq![fill_word(false, (zero_blocks - 1) as u32, 0), lit]
        }
    } else {
        let delta = last % 31 + (i - last);
        if delta >= 31 {
            let zero_blocks = delta / 31 - 1;
            let lit = literal_with_bit((delta % 31) as u32);
            if zero_blocks == 0 {
                push_literal(ws, lit)
            } else {
                push_literal(push_fill(ws, zero_blocks as u32, false), lit)
            }
        } else {
            let t = ws.last() | (1u32 << (delta as u32));
            if t == ALL_ONES_LITERAL {
                push_literal(ws.drop_last(), ALL_ONES_LITERAL)
            } else {
                ws.drop_last().push(t)
            }
        }
    }
}

/// The model after appending position `i`.
pub open spec fn appended(m: ConciseModel, i: int) -> ConciseModel {
    ConciseModel { words: append_words(m.words, m.last, i), last: i, size: m.size + 1 }
}

/// The model of a builder after appending the positions of `ps` in order.
pub open spec fn built(ps: Seq<int>) -> ConciseModel
    decreases ps.len(),
{
    if ps.len() == 0 {
        ConciseModel { words: Seq::empty(), last: -1, size: 0 }
    } else {
        appended(built(ps.drop_last()), ps.last())
    }
}

/// `ps` is strictly increasing and every position in it can be appended.
pub open spec fn valid_positions(ps: Seq<int>) -> bool {
    &&& forall|a: int, b: int| 0 <= a < b < ps.len() ==> ps[a] < ps[b]
    &&& forall|a: int| 0 <= a < ps.len() ==> 0 <= #[trigger] ps[a] < POSITION_LIMIT
}

/// Appending the positions of a strictly increasing sequence counts each of
/// them once: the cardinality is the sequence's length.
pub proof fn lemma_cardinality(ps: Seq<int>)
    requires
        valid_positions(ps),
    ensures
        built(ps).size == ps.len(),
        ps.len() > 0 ==> built(ps).last == ps.last(),
    decreases ps.len(),
{
    if ps.len() > 0 {
        lemma_cardinality(ps.drop_last());
    }
}

/// Why an append was refused.
#[derive(Debug, Clone, Copy, PartialEq, Eq, Structural)]
pub enum AppendError {
    /// The position is negative.
    NegativePosition,
    /// The position is not above the last one appended.
    NonMonotonicAppend,
    /// The position is at or above `POSITION_LIMIT`.
    PositionTooLarge,
}

/// The error that appending `i` after `last` gives, if any.
pub open spec fn append_error(last: int, i: int) -> Option<AppendError> {
    if i < 0 {
        Some(AppendError::NegativePosition)
    } else if i >= POSITION_LIMIT {
        Some(AppendError::PositionTooLarge)
    } else if i <= last {
        Some(AppendError::NonMonotonicAppend)
    } else {
        None
    }
}

/// A Concise bitset under construction.
#[derive(Debug, Clone)]
pub struct Concise {
    words: Vec<u32>,
    last: i32,
    size: i32,
}

impl View for Concise {
    type V = ConciseModel;

    closed spec fn view(&self) -> ConciseModel {
        ConciseModel { words: self.words@, last: self.last as int, size: self.size as nat }
    }
}

impl Concise {
    /// Well-formedness: an empty builder has no words; otherwise `last` is in
    /// range, every appended position lies at or below it, and every word
    /// covers at least one of the `last / 31 + 1` blocks.
    pub closed spec fn wf(&self) -> bool {
        &&& -1 <= self.last < POSITION_LIMIT
        &&& 0 <= self.size <= self.last + 1
        &&& (self.words@.len() == 0 <==> self.last == -1)
        &&& self.words@.len() <= self.last / 31 + 1
    }

    /// An empty builder.
    pub fn new() -> (r: Concise)
        ensures
            r.wf(),
            r@ == (ConciseModel { words: Seq::empty(), last: -1, size: 0 }),
    {
        Concise { words: Vec::new(), last: -1, size: 0 }
    }

    /// The words produced so far.
    pub fn words_view(&self) -> (r: &[u32])
        ensures
            r@ == self@.words,
    {
        self.words.as_slice()
    }

    /// Byte footprint of the used words: four bytes per word.
    pub fn size(&self) -> (r: usize)
        requires
            self.wf(),
        ensures
            r == self@.words.len() * 4,
    {
        self.words.len() * 4
    }

    /// Number of positions appended so far.
    pub fn cardinality(&self) -> (r: u32)
        requires
            self.wf(),
        ensures
            r == self@.size,
    {
        self.size as u32
    }

    /// Records that position `i` is set. Fails, leaving the builder as it
    /// was, when `i` is negative, too large for the word format, or not above
    /// the last position appended.
    pub fn append(&mut self, i: i32) -> (r: Result<(), AppendError>)
        requires
            old(self).wf(),
        ensures
            final(self).wf(),
            r == (match append_error(old(self)@.last, i as int) {
                Some(e) => Err(e),
                None => Ok(()),
            }),
            r is Ok ==> final(self)@ == appended(old(self)@, i as int),
            r is Err ==> final(self)@ == old(self)@,
    {
        if i < 0 {
            return Err(AppendError::NegativePosition);
        }
        if i >= POSITION_LIMIT {
            return Err(AppendError::PositionTooLarge);
        }
        if i <= self.last {
            return Err(AppendError::NonMonotonicAppend);
        }
        if self.words.len() == 0 {
            let zero_blocks = i / 31;
            let lit = make_literal((i % 31) as u32);
            if zero_blocks == 0 {
                self.words.push(lit);
            } else if zero_blocks == 1 {
                self.words.push(ALL_ZEROS_LITERAL);
                self.words.push(lit);
            } else {
                self.words.push(make_fill(false, (zero_blocks - 1) as u32, 0));
                self.words.push(lit);
            }
            self.last = i;
            self.size = 1;
            assert(self.words@ =~= append_words(old(self).words@, old(self).last as int, i as int));
            return Ok(());
        }
        let delta = self.last % 31 + (i - self.last);
        if delta >= 31 {
            let zero_blocks = delta / 31 - 1;
            let lit = make_literal((delta % 31) as u32);
            if zero_blocks != 0 {
                self.append_fill(zero_blocks as u32, false);
                proof {
                    lemma_push_fill_len(old(self).words@, zero_blocks as u32, false);
                }
            }
            proof {
                lemma_push_literal_len(self.words@, lit);
            }
            self.append_literal(lit);
        } else {
            let n = self.words.len();
            let t = self.words[n - 1] | (1u32 << (delta as u32));
            if t == ALL_ONES_LITERAL {
                self.words.pop();
                proof {
                    lemma_push_literal_len(self.words@, ALL_ONES_LITERAL);
                }
                self.append_literal(ALL_ONES_LITERAL);
            } else {
                self.replace_last(t);
            }
        }
        self.last = i;
        self.size = self.size + 1;
        Ok(())
    }

    /// Appends literal `w`, merging it into the tail word where a rule allows.
    fn append_literal(&mut self, w: u32)
        ensures
            final(self).words@ == push_literal(old(self).words@, w),
            final(self).last == old(self).last,
            final(self).size == old(self).size,
    {
        let n = self.words.len();
        if n == 1 && w == ALL_ZEROS_LITERAL && self.words[0] == MAX_FILL_LEN {
            return;
        }
        if n == 0 {
            self.words.push(w);
            return;
        }
        let t = self.words[n - 1];
        if w == ALL_ZEROS_LITERAL {
            if t == ALL_ZEROS_LITERAL {
                self.replace_last(make_fill(false, 1, 0));
            } else if is_zero_fill_word(t) && (t & MAX_FILL_LEN) < MAX_FILL_LEN {
                self.replace_last(t + 1);
            } else if is_literal_word(t) && t != ALL_ZEROS_LITERAL && contains_only_one_bit(
                literal_bits_of(t),
            ) {
                self.replace_last(make_fill(false, 1, 1 + t.trailing_zeros()));
            } else {
                self.words.push(w);
            }
        } else if w == ALL_ONES_LITERAL {
            if t == ALL_ONES_LITERAL {
                self.replace_last(make_fill(true, 1, 0));
            } else if is_one_fill_word(t) && (t & MAX_FILL_LEN) < MAX_FILL_LEN {
                self.replace_last(t + 1);
            } else if is_literal_word(t) && t != ALL_ONES_LITERAL && contains_only_one_bit(
                complement(t),
            ) {
                self.replace_last(make_fill(true, 1, 1 + (!t).trailing_zeros()));
            } else {
                self.words.push(w);
            }
        } else {
            self.words.push(w);
        }
    }

    /// Appends a fill of `length` blocks of polarity `one`, merging it into
    /// the tail word where a rule allows.
    fn append_fill(&mut self, length: u32, one: bool)
        requires
            1 <= length <= MAX_FILL_LEN,
        ensures
            final(self).words@ == push_fill(old(self).words@, length, one),
            final(self).last == old(self).last,
            final(self).size == old(self).size,
    {
        if length == 1 {
            self.append_literal(if one { ALL_ONES_LITERAL } else { ALL_ZEROS_LITERAL });
            return;
        }
        let n = self.words.len();
        if n == 0 {
            self.words.push(make_fill(one, length - 1, 0));
            return;
        }
        let t = self.words[n - 1];
        if is_literal_word(t) {
            if !one && t == ALL_ZEROS_LITERAL {
                self.replace_last(make_fill(false, length, 0));
            } else if one && t == ALL_ONES_LITERAL {
                self.replace_last(make_fill(true, length, 0));
            } else if !one && t != ALL_ZEROS_LITERAL && contains_only_one_bit(literal_bits_of(t)) {
                self.replace_last(make_fill(false, length, 1 + t.trailing_zeros()));
            } else if one && t != ALL_ONES_LITERAL && contains_only_one_bit(complement(t)) {
                self.replace_last(make_fill(true, length, 1 + (!t).trailing_zeros()));
            } else {
                self.words.push(make_fill(one, length - 1, 0));
            }
        } else if is_one_fill_word(t) == one && (t & MAX_FILL_LEN) <= MAX_FILL_LEN - length {
            proof {
                assert(t < ALL_ZEROS_LITERAL ==> t + MAX_FILL_LEN < 0x1_0000_0000) by (bit_vector);
            }
            self.replace_last(t + length);
        } else {
            self.words.push(make_fill(one, length - 1, 0));
        }
    }

    /// Overwrites the tail word.
    fn replace_last(&mut self, v: u32)
        requires
            old(self).words@.len() > 0,
        ensures
            final(self).words@ == old(self).words@.drop_last().push(v),
            final(self).last == old(self).last,
            final(self).size == old(self).size,
    {
        let n = self.words.len();
        self.words.set(n - 1, v);
        assert(self.words@ =~= old(self).words@.drop_last().push(v));
    }
}

/// A literal whose only set bit is `b`.
fn make_literal(b: u32) -> (r: u32)
    requires
        b < 31,
    ensures
        r == literal_with_bit(b),
{
    ALL_ZEROS_LITERAL | (1u32 << b)
}

proof fn lemma_push_literal_len(ws: Seq<u32>, w: u32)
    ensures
        1 <= push_literal(ws, w).len() <= ws.len() + 1,
{
}

proof fn lemma_push_fill_len(ws: Seq<u32>, length: u32, one: bool)
    ensures
        1 <= push_fill(ws, length, one).len() <= ws.len() + 1,
{
    if length == 1 {
        lemma_push_literal_len(ws, if one { ALL_ONES_LITERAL } else { ALL_ZEROS_LITERAL });
    }
}

/// Builds a fill word from its polarity, length counter and flipped bit.
fn make_fill(one: bool, len: u32, flip: u32) -> (r: u32)
    ensures
        r == fill_word(one, len, flip),
{
    (if one { ONE_FILL_BIT } else { 0u32 }) | len | (flip << 25u32)
}

fn is_zero_fill_word(w: u32) -> (r: bool)
    ensures
        r == is_zero_fill(w),
{
    proof {
        assert((w & 0xC000_0000) == 0 <==> w < ONE_FILL_BIT) by (bit_vector);
    }
    (w & 0xC000_0000) == 0
}

fn is_one_fill_word(w: u32) -> (r: bool)
    ensures
        r == is_one_fill(w),
{
    proof {
        assert((w & 0xC000_0000) == ONE_FILL_BIT <==> (ONE_FILL_BIT <= w && w < ALL_ZEROS_LITERAL))
            by (bit_vector);
    }
    (w & 0xC000_0000) == ONE_FILL_BIT
}

fn is_literal_word(w: u32) -> (r: bool)
    ensures
        r == is_literal(w),
{
    proof {
        assert((w & 0x8000_0000) != 0 <==> w >= ALL_ZEROS_LITERAL) by (bit_vector);
    }
    (w & 0x8000_0000) != 0
}

fn contains_only_one_bit(x: u32) -> (r: bool)
    requires
        x != 0,
    ensures
        r == at_most_one_bit(x),
{
    x & (x - 1) == 0
}

fn complement(w: u32) -> (r: u32)
    ensures
        r == !w,
        w != ALL_ONES_LITERAL ==> r != 0,
{
    proof {
        assert(w != 0xFFFF_FFFF ==> !w != 0) by (bit_vector);
    }
    !w
}

fn literal_bits_of(w: u32) -> (r: u32)
    ensures
        r == literal_bits(w),
        is_literal(w) && w != ALL_ZEROS_LITERAL ==> r != 0,
{
    proof {
        assert(w >= ALL_ZEROS_LITERAL && w != ALL_ZEROS_LITERAL ==> w & 0x7FFF_FFFF != 0)
            by (bit_vector);
    }
    w & 0x7FFF_FFFF
}

/// The 1-based index of the flipped bit of a fill word, 0 for none.
pub open spec fn fill_flip(w: u32) -> u32 {
    (w >> 25u32) & 31
}

/// Whether bit `j` of `w` is set.
pub open spec fn bit_set(w: u32, j: u32) -> bool {
    (w >> j) & 1 == 1
}

/// The positions a word stands for, as bits: 31 for a literal, `31 * (L + 1)`
/// for a fill, whose first block has the flipped bit inverted.
pub open spec fn word_bits(w: u32) -> Seq<bool> {
    if is_literal(w) {
        Seq::new(31, |j: int| bit_set(w, j as u32))
    } else {
        let one = is_one_fill(w);
        let f = fill_flip(w);
        Seq::new(
            (31 * (fill_len(w) + 1)) as nat,
            |j: int| if f != 0 && j == f - 1 { !one } else { one },
        )
    }
}

/// The bits that a word stream stands for.
pub open spec fn decode_words(ws: Seq<u32>) -> Seq<bool>
    decreases ws.len(),
{
    if ws.len() == 0 {
        Seq::empty()
    } else {
        decode_words(ws.drop_last()) + word_bits(ws.last())
    }
}

/// `n` bits, bit `j` set exactly when `j` is in `ps`.
pub open spec fn bitmap(ps: Seq<int>, n: int) -> Seq<bool> {
    Seq::new(n as nat, |j: int| ps.contains(j))
}

proof fn lemma_literal_bit(b: u32)
    requires
        b < 31,
    ensures
        is_literal(literal_with_bit(b)),
        literal_with_bit(b) != ALL_ZEROS_LITERAL,
        literal_with_bit(b) != ALL_ONES_LITERAL,
        forall|j: u32| j < 31 ==> (bit_set(literal_with_bit(b), j) <==> j == b),
{
    assert(forall|j: u32|
        j < 31 ==> ((((0x8000_0000u32 | (1u32 << b)) >> j) & 1 == 1) <==> j == b)) by (bit_vector)
        requires
            b < 31,
    ;
    assert((0x8000_0000u32 | (1u32 << b)) >= 0x8000_0000u32) by (bit_vector);
    assert(b < 31 ==> (0x8000_0000u32 | (1u32 << b)) != 0x8000_0000u32) by (bit_vector);
    assert(b < 31 ==> (0x8000_0000u32 | (1u32 << b)) != 0xFFFF_FFFFu32) by (bit_vector);
}

proof fn lemma_uniform_literals()
    ensures
        forall|j: u32| j < 31 ==> !bit_set(ALL_ZEROS_LITERAL, j),
        forall|j: u32| j < 31 ==> bit_set(ALL_ONES_LITERAL, j),
{
    assert(forall|j: u32| j < 31 ==> !(((0x8000_0000u32 >> j) & 1) == 1)) by (bit_vector);
    assert(forall|j: u32| j < 31 ==> ((0xFFFF_FFFFu32 >> j) & 1) == 1) by (bit_vector);
}

proof fn lemma_fill_fields(one: bool, len: u32, flip: u32)
    requires
        len <= MAX_FILL_LEN,
        flip < 32,
    ensures
        !is_literal(fill_word(one, len, flip)),
        is_one_fill(fill_word(one, len, flip)) == one,
        is_zero_fill(fill_word(one, len, flip)) == !one,
        fill_len(fill_word(one, len, flip)) == len,
        fill_flip(fill_word(one, len, flip)) == flip,
{
    let w = fill_word(one, len, flip);
    if one {
        assert(len <= 0x01FF_FFFF && flip < 32 ==> {
            let x = 0x4000_0000u32 | len | (flip << 25u32);
            &&& 0x4000_0000u32 <= x < 0x8000_0000u32
            &&& x & 0x01FF_FFFFu32 == len
            &&& (x >> 25u32) & 31 == flip
        }) by (bit_vector);
    } else {
        assert(len <= 0x01FF_FFFF && flip < 32 ==> {
            let x = 0u32 | len | (flip << 25u32);
            &&& x < 0x4000_0000u32
            &&& x & 0x01FF_FFFFu32 == len
            &&& (x >> 25u32) & 31 == flip
        }) by (bit_vector);
    }
}

proof fn lemma_fill_grow(t: u32, k: u32)
    requires
        !is_literal(t),
        fill_len(t) + k <= MAX_FILL_LEN,
    ensures
        !is_literal((t + k) as u32),
        is_one_fill((t + k) as u32) == is_one_fill(t),
        fill_len((t + k) as u32) == fill_len(t) + k,
        fill_flip((t + k) as u32) == fill_flip(t),
{
    assert(t < 0x8000_0000u32 && (t & 0x01FF_FFFFu32) + k <= 0x01FF_FFFFu32 ==> {
        let x = (t + k) as u32;
        &&& x < 0x8000_0000u32
        &&& (0x4000_0000u32 <= x) == (0x4000_0000u32 <= t)
        &&& x & 0x01FF_FFFFu32 == (t & 0x01FF_FFFFu32) + k
        &&& (x >> 25u32) & 31 == (t >> 25u32) & 31
    }) by (bit_vector);
}

proof fn lemma_single_set_bit(t: u32)
    requires
        single_set_bit(t),
    ensures
        t.trailing_zeros() < 31,
        forall|j: u32| j < 31 ==> (bit_set(t, j) <==> j == t.trailing_zeros()),
{
    let z = t.trailing_zeros();
    vstd::std_specs::bits::axiom_u32_trailing_zeros(t);
    let x = t & 0x7FFF_FFFFu32;
    assert(x & ((x - 1) as u32) == 0);
    assert(t << ((32 - z) as u32) == 0);
    assert(z < 31 && forall|j: u32| j < 31 ==> ((((t >> j) & 1) == 1) <==> j == z)) by (bit_vector)
        requires
            t >= 0x8000_0000u32,
            t != 0x8000_0000u32,
            x == t & 0x7FFF_FFFFu32,
            x & ((x - 1) as u32) == 0,
            z <= 32,
            t << ((32 - z) as u32) == 0,
            z < 32 ==> (t >> z) & 1 == 1,
    ;
}

proof fn lemma_single_clear_bit(t: u32)
    requires
        single_clear_bit(t),
    ensures
        (!t).trailing_zeros() < 31,
        forall|j: u32| j < 31 ==> (bit_set(t, j) <==> j != (!t).trailing_zeros()),
{
    let c = !t;
    let z = c.trailing_zeros();
    vstd::std_specs::bits::axiom_u32_trailing_zeros(c);
    assert(c & ((c - 1) as u32) == 0);
    assert(c << ((32 - z) as u32) == 0);
    assert(z < 31 && forall|j: u32| j < 31 ==> ((((t >> j) & 1) == 1) <==> j != z)) by (bit_vector)
        requires
            t >= 0x8000_0000u32,
            t != 0xFFFF_FFFFu32,
            c == !t,
            c & ((c - 1) as u32) == 0,
            z <= 32,
            c << ((32 - z) as u32) == 0,
            z < 32 ==> (c >> z) & 1 == 1,
    ;
}

proof fn lemma_set_bit(t: u32, d: u32)
    requires
        is_literal(t),
        d < 31,
    ensures
        is_literal(t | (1u32 << d)),
        forall|j: u32| j < 31 ==> (bit_set(t | (1u32 << d), j) <==> (bit_set(t, j) || j == d)),
{
    assert((t | (1u32 << d)) >= 0x8000_0000u32 && forall|j: u32|
        j < 31 ==> (((((t | (1u32 << d)) >> j) & 1) == 1) <==> (((t >> j) & 1) == 1 || j == d)))
        by (bit_vector)
        requires
            t >= 0x8000_0000u32,
            d < 31,
    ;
}

/// `n` copies of `b`.
pub open spec fn uniform(b: bool, n: nat) -> Seq<bool> {
    Seq::new(n, |_j: int| b)
}

proof fn lemma_word_bits_len(w: u32)
    ensures
        is_literal(w) ==> word_bits(w).len() == 31,
        !is_literal(w) ==> word_bits(w).len() == 31 * (fill_len(w) + 1),
{
}

proof fn lemma_decode_single(w: u32)
    ensures
        decode_words(seq![w]) == word_bits(w),
{
    let s = seq![w];
    assert(s.drop_last() =~= Seq::<u32>::empty());
    assert(decode_words(s.drop_last()) =~= Seq::<bool>::empty());
    assert(decode_words(s) =~= word_bits(w));
}

/// A literal that merges into the tail word stands for the same bits as it
/// would have standing after it.
proof fn lemma_push_literal_decode(ws: Seq<u32>, w: u32)
    requires
        is_literal(w),
        !(ws.len() == 1 && w == ALL_ZEROS_LITERAL && ws[0] == MAX_FILL_LEN),
    ensures
        decode_words(push_literal(ws, w)) == decode_words(ws) + word_bits(w),
{
    lemma_uniform_literals();
    if ws.len() == 0 {
        lemma_decode_single(w);
        assert(ws =~= Seq::<u32>::empty());
        assert(decode_words(ws) =~= Seq::<bool>::empty());
        assert(decode_words(seq![w]) =~= decode_words(ws) + word_bits(w));
    } else {
        let t = ws.last();
        let init = ws.drop_last();
        let r = push_literal(ws, w);
        if r.len() == ws.len() {
            // The tail word was replaced by `r.last()`.
            assert(r =~= init.push(r.last()));
            assert(r.drop_last() =~= init);
            assert(word_bits(r.last()) =~= word_bits(t) + word_bits(w)) by {
                if w == ALL_ZEROS_LITERAL {
                    if t == ALL_ZEROS_LITERAL {
                        lemma_fill_fields(false, 1, 0);
                    } else if is_zero_fill(t) && fill_len(t) < MAX_FILL_LEN {
                        lemma_fill_grow(t, 1);
                        assert((t >> 25u32) & 31 <= 31) by (bit_vector);
                    } else {
                        lemma_single_set_bit(t);
                        lemma_fill_fields(false, 1, (1 + t.trailing_zeros()) as u32);
                    }
                } else {
                    if t == ALL_ONES_LITERAL {
                        lemma_fill_fields(true, 1, 0);
                    } else if is_one_fill(t) && fill_len(t) < MAX_FILL_LEN {
                        lemma_fill_grow(t, 1);
                        assert((t >> 25u32) & 31 <= 31) by (bit_vector);
                    } else {
                        lemma_single_clear_bit(t);
                        lemma_fill_fields(true, 1, (1 + (!t).trailing_zeros()) as u32);
                    }
                }
            }
            assert(decode_words(r) =~= decode_words(ws) + word_bits(w));
        } else {
            assert(r == ws.push(w));
            assert(r.drop_last() =~= ws);
        }
    }
}

/// A fill of zeros stands for `31 * length` cleared bits after the stream.
proof fn lemma_push_fill_decode(ws: Seq<u32>, length: u32)
    requires
        1 <= length <= MAX_FILL_LEN,
        !(ws.len() == 1 && length == 1 && ws[0] == MAX_FILL_LEN),
    ensures
        decode_words(push_fill(ws, length, false)) == decode_words(ws) + uniform(
            false,
            31 * length as nat,
        ),
{
    lemma_uniform_literals();
    if length == 1 {
        lemma_push_literal_decode(ws, ALL_ZEROS_LITERAL);
        assert(word_bits(ALL_ZEROS_LITERAL) =~= uniform(false, 31));
    } else if ws.len() == 0 {
        lemma_fill_fields(false, (length - 1) as u32, 0);
        let f = fill_word(false, (length - 1) as u32, 0);
        lemma_decode_single(f);
        assert(ws =~= Seq::<u32>::empty());
        assert(decode_words(ws) =~= Seq::<bool>::empty());
        assert(word_bits(f) =~= uniform(false, 31 * length as nat));
        assert(decode_words(seq![f]) =~= decode_words(ws) + uniform(false, 31 * length as nat));
    } else {
        let t = ws.last();
        let init = ws.drop_last();
        let r = push_fill(ws, length, false);
        if r.len() == ws.len() {
            assert(r =~= init.push(r.last()));
            assert(r.drop_last() =~= init);
            assert(word_bits(r.last()) =~= word_bits(t) + uniform(false, 31 * length as nat)) by {
                if is_literal(t) {
                    if t == ALL_ZEROS_LITERAL {
                        lemma_fill_fields(false, length, 0);
                    } else {
                        lemma_single_set_bit(t);
                        lemma_fill_fields(false, length, (1 + t.trailing_zeros()) as u32);
                    }
                } else {
                    lemma_fill_grow(t, length);
                    assert((t >> 25u32) & 31 <= 31) by (bit_vector);
                }
            }
            assert(decode_words(r) =~= decode_words(ws) + uniform(false, 31 * length as nat));
        } else {
            let f = fill_word(false, (length - 1) as u32, 0);
            lemma_fill_fields(false, (length - 1) as u32, 0);
            assert(r == ws.push(f));
            assert(r.drop_last() =~= ws);
            assert(word_bits(f) =~= uniform(false, 31 * length as nat));
        }
    }
}

proof fn lemma_set_bit_at(t: u32, d: u32, j: u32)
    requires
        d < 31,
        j < 31,
    ensures
        bit_set(t | (1u32 << d), j) == (bit_set(t, j) || j == d),
{
    assert((((t | (1u32 << d)) >> j) & 1 == 1) == (((t >> j) & 1 == 1) || j == d)) by (bit_vector)
        requires
            d < 31,
            j < 31,
    ;
}

/// The tail word of a builder is a literal, or a fill of ones when the last
/// position closes its block.
pub open spec fn tail_ok(ws: Seq<u32>, last: int) -> bool {
    ws.len() > 0 ==> (is_literal(ws.last()) || (is_one_fill(ws.last()) && last % 31 == 30))
}

/// What the words of a builder built from `ps` stand for: bit `j` is set
/// exactly when `j` is in `ps`, over the blocks up to the last position.
pub open spec fn decodes_to(m: ConciseModel, ps: Seq<int>) -> bool {
    if ps.len() == 0 {
        m.words.len() == 0
    } else {
        &&& m.last == ps.last()
        &&& decode_words(m.words) == bitmap(ps, 31 * (ps.last() / 31 + 1))
        &&& tail_ok(m.words, m.last)
    }
}

proof fn lemma_contains_push(ps: Seq<int>, i: int)
    requires
        valid_positions(ps.push(i)),
    ensures
        forall|j: int| #[trigger] ps.push(i).contains(j) <==> (ps.contains(j) || j == i),
        forall|j: int| #[trigger] ps.contains(j) ==> j < i,
        ps.len() > 0 ==> forall|j: int| #[trigger] ps.contains(j) ==> j <= ps.last(),
        0 <= i < POSITION_LIMIT,
{
    let q = ps.push(i);
    assert(q[q.len() - 1] == i);
    assert forall|j: int| #[trigger] q.contains(j) <==> (ps.contains(j) || j == i) by {
        if q.contains(j) {
            let k = choose|k: int| 0 <= k < q.len() && q[k] == j;
            if k < ps.len() {
                assert(ps[k] == j);
            }
        }
        if ps.contains(j) {
            let k = choose|k: int| 0 <= k < ps.len() && ps[k] == j;
            assert(q[k] == j);
        }
        if j == i {
            assert(q[ps.len() as int] == j);
        }
    }
    assert forall|j: int| #[trigger] ps.contains(j) implies j < i && (ps.len() > 0 ==> j
        <= ps.last()) by {
        let k = choose|k: int| 0 <= k < ps.len() && ps[k] == j;
        assert(q[k] == ps[k]);
        assert(q[k] < q[ps.len() as int]);
        if k < ps.len() - 1 {
            assert(q[k] < q[ps.len() - 1]);
        }
    }
}

proof fn lemma_push_ones_tail(ws: Seq<u32>)
    ensures
        push_literal(ws, ALL_ONES_LITERAL).len() > 0,
        is_literal(push_literal(ws, ALL_ONES_LITERAL).last()) || is_one_fill(
            push_literal(ws, ALL_ONES_LITERAL).last(),
        ),
{
    if ws.len() > 0 {
        let t = ws.last();
        if t == ALL_ONES_LITERAL {
            lemma_fill_fields(true, 1, 0);
        } else if is_one_fill(t) && fill_len(t) < MAX_FILL_LEN {
            lemma_fill_grow(t, 1);
        } else if single_clear_bit(t) {
            lemma_single_clear_bit(t);
            lemma_fill_fields(true, 1, (1 + (!t).trailing_zeros()) as u32);
        }
    }
}

/// The first position appended.
proof fn lemma_first_append_decodes(ps: Seq<int>, i: int)
    requires
        valid_positions(ps.push(i)),
        decodes_to(built(ps), ps),
        ps.len() == 0,
    ensures
        decodes_to(built(ps.push(i)), ps.push(i)),
{
    let q = ps.push(i);
    assert(q.drop_last() =~= ps);
    lemma_contains_push(ps, i);
    let m = built(ps);
    let ws = m.words;
    let r = append_words(ws, m.last, i);
    assert(built(q).words == r);
    lemma_uniform_literals();
    let zb = i / 31;
    let b = (i % 31) as u32;
    let lit = literal_with_bit(b);
    lemma_literal_bit(b);
    lemma_decode_single(lit);
    let prefix: Seq<u32> = if zb == 0 {
        Seq::empty()
    } else if zb == 1 {
        seq![ALL_ZEROS_LITERAL]
    } else {
        seq![fill_word(false, (zb - 1) as u32, 0)]
    };
    assert(r =~= prefix.push(lit));
    assert(r.drop_last() =~= prefix);
    assert(decode_words(prefix) =~= uniform(false, 31 * zb as nat)) by {
        if zb == 0 {
        } else if zb == 1 {
            lemma_decode_single(ALL_ZEROS_LITERAL);
        } else {
            lemma_fill_fields(false, (zb - 1) as u32, 0);
            lemma_decode_single(fill_word(false, (zb - 1) as u32, 0));
        }
    }
    assert(decode_words(r) =~= bitmap(q, 31 * (i / 31 + 1))) by {
        assert forall|j: int| 0 <= j < 31 * (i / 31 + 1) implies #[trigger] decode_words(r)[j]
            == q.contains(j) by {
            if j >= 31 * zb {
                assert(bit_set(lit, (j - 31 * zb) as u32) <==> j - 31 * zb == b);
            }
        }
    }
    assert(q.last() == i);
}

/// A position past the block of the last one.
#[verifier::rlimit(30)]
proof fn lemma_new_block_decodes(ps: Seq<int>, i: int)
    requires
        valid_positions(ps.push(i)),
        decodes_to(built(ps), ps),
        ps.len() > 0,
        built(ps).last % 31 + (i - built(ps).last) >= 31,
    ensures
        decodes_to(built(ps.push(i)), ps.push(i)),
{
    let q = ps.push(i);
    assert(q.drop_last() =~= ps);
    lemma_contains_push(ps, i);
    let m = built(ps);
    let ws = m.words;
    let r = append_words(ws, m.last, i);
    assert(built(q).words == r);
    lemma_uniform_literals();
    let last = m.last;
    let big_b = last / 31;
    let delta = last % 31 + (i - last);
    let d = decode_words(ws);
    assert(last == 31 * big_b + last % 31);
    let zb = delta / 31 - 1;
    let b = (delta % 31) as u32;
    let lit = literal_with_bit(b);
    lemma_literal_bit(b);
    assert(i == 31 * (big_b + zb + 1) + b);
    assert(i / 31 == big_b + zb + 1);
    let y = if zb == 0 {
        ws
    } else {
        push_fill(ws, zb as u32, false)
    };
    assert(decode_words(y) == d + uniform(false, 31 * zb as nat)) by {
        if zb == 0 {
            assert(d + uniform(false, 0) =~= d);
        } else {
            assert(ws.len() == 1 ==> ws[0] == ws.last());
            lemma_push_fill_decode(ws, zb as u32);
        }
    }
    lemma_push_literal_decode(y, lit);
    assert(r == push_literal(y, lit));
    assert(decode_words(r) =~= bitmap(q, 31 * (i / 31 + 1))) by {
        assert forall|j: int| 0 <= j < 31 * (i / 31 + 1) implies #[trigger] decode_words(
            r,
        )[j] == q.contains(j) by {
            if j < 31 * (big_b + 1) {
                assert(d[j] == ps.contains(j));
            } else if j < 31 * (big_b + 1 + zb) {
                assert(!ps.contains(j));
            } else {
                assert(!ps.contains(j));
                let o = j - 31 * (big_b + 1 + zb);
                assert(bit_set(lit, o as u32) <==> o == b);
            }
        }
    }
    assert(r.last() == lit);
}

/// A position in the block of the last one.
#[verifier::rlimit(30)]
proof fn lemma_same_block_decodes(ps: Seq<int>, i: int)
    requires
        valid_positions(ps.push(i)),
        decodes_to(built(ps), ps),
        ps.len() > 0,
        built(ps).last % 31 + (i - built(ps).last) < 31,
    ensures
        decodes_to(built(ps.push(i)), ps.push(i)),
{
    let q = ps.push(i);
    assert(q.drop_last() =~= ps);
    lemma_contains_push(ps, i);
    let m = built(ps);
    let ws = m.words;
    let r = append_words(ws, m.last, i);
    assert(built(q).words == r);
    lemma_uniform_literals();
    let last = m.last;
    let big_b = last / 31;
    let delta = last % 31 + (i - last);
    let d = decode_words(ws);
    assert(last == 31 * big_b + last % 31);
    let t = ws.last();
    let init = ws.drop_last();
    assert(is_literal(t));
    assert(ws =~= init.push(t));
    assert(d == decode_words(init) + word_bits(t));
    lemma_word_bits_len(t);
    assert(d.len() == 31 * (big_b + 1));
    assert(decode_words(init).len() == 31 * big_b);
    assert(i == 31 * big_b + delta);
    assert(i / 31 == big_b);
    let t2 = t | (1u32 << (delta as u32));
    lemma_set_bit(t, delta as u32);
    assert(forall|o: int| 0 <= o < 31 ==> word_bits(t)[o] == d[31 * big_b + o]);
    if t2 == ALL_ONES_LITERAL {
        lemma_push_literal_decode(init, ALL_ONES_LITERAL);
        lemma_push_ones_tail(init);
        assert(word_bits(ALL_ONES_LITERAL) =~= word_bits(t2));
        assert(bit_set(t2, 30));
        if delta != 30 {
            assert(bit_set(t, 30));
            assert(d[31 * big_b + 30]);
            assert(ps.contains(31 * big_b + 30));
        }
    } else {
        assert(r =~= init.push(t2));
        assert(r.drop_last() =~= init);
    }
    assert(decode_words(r) == decode_words(init) + word_bits(t2));
    assert(decode_words(r) =~= bitmap(q, 31 * (i / 31 + 1))) by {
        assert forall|j: int| 0 <= j < 31 * (i / 31 + 1) implies #[trigger] decode_words(
            r,
        )[j] == q.contains(j) by {
            if j < 31 * big_b {
                assert(d[j] == ps.contains(j));
            } else {
                let o = j - 31 * big_b;
                assert(0 <= o < 31);
                assert(is_literal(t2));
                assert(word_bits(t2)[o] == bit_set(t2, o as u32));
                lemma_set_bit_at(t, delta as u32, o as u32);
                assert(bit_set(t2, o as u32) == (bit_set(t, o as u32) || (o as u32) == (
                delta as u32)));
                assert(word_bits(t)[o] == bit_set(t, o as u32));
                assert(word_bits(t)[o] == d[j]);
                assert(d[j] == ps.contains(j));
                assert(decode_words(r)[j] == word_bits(t2)[o]);
                assert((o == delta) == (j == i));
            }
        }
    }
}

/// Appending a position keeps the words standing for exactly the positions
/// appended.
proof fn lemma_append_decodes(ps: Seq<int>, i: int)
    requires
        valid_positions(ps.push(i)),
        decodes_to(built(ps), ps),
    ensures
        decodes_to(built(ps.push(i)), ps.push(i)),
{
    if ps.len() == 0 {
        lemma_first_append_decodes(ps, i);
    } else if built(ps).last % 31 + (i - built(ps).last) >= 31 {
        lemma_new_block_decodes(ps, i);
    } else {
        lemma_same_block_decodes(ps, i);
    }
}

/// The words a builder holds after appending the positions of a strictly
/// increasing sequence stand for exactly those positions: decoded, bit `j`
/// is set if and only if `j` is in the sequence, over every block up to the
/// one holding the last position.
pub proof fn lemma_decodes_to_positions(ps: Seq<int>)
    requires
        valid_positions(ps),
    ensures
        decodes_to(built(ps), ps),
    decreases ps.len(),
{
    if ps.len() > 0 {
        let init = ps.drop_last();
        assert(init.push(ps.last()) =~= ps);
        assert(valid_positions(init));
        lemma_decodes_to_positions(init);
        lemma_append_decodes(init, ps.last());
    }
}

} // verus!
