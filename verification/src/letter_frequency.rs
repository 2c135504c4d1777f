//! Counting how often each letter occurs in a batch of texts, letter case
//! ignored, in a form that lets the batch be cut into shares that are
//! counted apart and added up afterwards.

use std::collections::HashMap;
use vstd::prelude::*;
use vstd::std_specs::iter::IteratorSpec;

verus! {

/// What `char::is_alphabetic` answers for `c`.
pub uninterp spec fn alphabetic(c: char) -> bool;

/// The characters that `char::to_lowercase` yields for `c`, in order.
pub uninterp spec fn lowercase(c: char) -> Seq<char>;

/// `char::is_alphabetic` decides from the Unicode tables whether a
/// character is a letter. Nothing is claimed of the answer but that it
/// depends on the character alone.
pub assume_specification[ char::is_alphabetic ](c: char) -> (letter: bool)
    ensures
        letter == alphabetic(c),
;

/// `core::char::ToLowercase`, the iterator that `char::to_lowercase`
/// returns.
#[verifier::external_type_specification]
#[verifier::external_body]
pub struct ExToLowercase(core::char::ToLowercase);

/// The characters that a `ToLowercase` has yet to yield, in order.
pub uninterp spec fn yet_to_yield(lower: core::char::ToLowercase) -> Seq<char>;

/// `char::to_lowercase` maps a character to its lowercase form, which the
/// Unicode tables give as one or more characters, and returns an iterator
/// over them. Nothing is claimed of them but that they depend on the
/// character alone.
pub assume_specification[ char::to_lowercase ](c: char) -> (lower: core::char::ToLowercase)
    ensures
        yet_to_yield(lower) == lowercase(c),
;

/// `Iterator::next` of `ToLowercase` hands out the first character that is
/// yet to be yielded and keeps the rest, or returns `None` where nothing is
/// left.
#[verifier::external_body]
fn next_lower(lower: &mut core::char::ToLowercase) -> (next: Option<char>)
    ensures
        match next {
            Some(c) => {
                &&& yet_to_yield(*old(lower)).len() > 0
                &&& c == yet_to_yield(*old(lower)).first()
                &&& yet_to_yield(*final(lower)) == yet_to_yield(*old(lower)).drop_first()
            },
            None => {
                &&& yet_to_yield(*old(lower)).len() == 0
                &&& yet_to_yield(*final(lower)) == yet_to_yield(*old(lower))
            },
        },
{
    lower.next()
}

/// `char::from_u32` gives the character with the number `code`, and `None`
/// where `code` is a surrogate or lies beyond the last character.
pub assume_specification[ char::from_u32 ](code: u32) -> (found: Option<char>)
    ensures
        found is Some <==> is_char_code(code),
        found matches Some(c) ==> c as u32 == code,
;

/// The letters that one character of a text contributes: its lowercase form
/// if it is a letter, nothing otherwise.
pub open spec fn letters_of(c: char) -> Seq<char> {
    if alphabetic(c) {
        lowercase(c)
    } else {
        Seq::empty()
    }
}

/// The letters that a text contributes, in order.
pub open spec fn letters(text: Seq<char>) -> Seq<char>
    decreases text.len(),
{
    if text.len() == 0 {
        Seq::empty()
    } else {
        letters(text.drop_last()) + letters_of(text.last())
    }
}

/// The letters that a batch of texts contributes, in order.
pub open spec fn letters_of_all(texts: Seq<&str>) -> Seq<char>
    decreases texts.len(),
{
    if texts.len() == 0 {
        Seq::empty()
    } else {
        letters_of_all(texts.drop_last()) + letters(texts.last()@)
    }
}

/// How often `c` occurs in `s`.
pub open spec fn occurrences(s: Seq<char>, c: char) -> nat
    decreases s.len(),
{
    if s.len() == 0 {
        0
    } else {
        occurrences(s.drop_last(), c) + if s.last() == c {
            1nat
        } else {
            0nat
        }
    }
}

/// The count recorded for `c`, zero where none is.
pub open spec fn count_in(counts: Map<char, usize>, c: char) -> nat {
    if counts.contains_key(c) {
        counts[c] as nat
    } else {
        0
    }
}

/// A count as it is recorded: counts beyond `usize::MAX` stay at
/// `usize::MAX`.
pub open spec fn capped(n: int) -> usize {
    if n <= usize::MAX {
        n as usize
    } else {
        usize::MAX
    }
}

/// The counts after the letters `added` have been counted on top of
/// `counts`.
pub open spec fn plus(counts: Map<char, usize>, added: Seq<char>) -> Map<char, usize> {
    Map::new(
        |c: char| counts.contains_key(c) || occurrences(added, c) > 0,
        |c: char| capped((count_in(counts, c) + occurrences(added, c)) as int),
    )
}

/// Counting a run of letters and then another is counting the two runs
/// joined.
pub proof fn lemma_occurrences_of_joined(first: Seq<char>, second: Seq<char>, c: char)
    ensures
        occurrences(first + second, c) == occurrences(first, c) + occurrences(second, c),
    decreases second.len(),
{
    if second.len() == 0 {
        assert(first + second =~= first);
    } else {
        assert((first + second).drop_last() =~= first + second.drop_last());
        lemma_occurrences_of_joined(first, second.drop_last(), c);
    }
}

/// Counts may be taken in shares: counting `second` on top of the counts of
/// `first` gives the counts of the two joined, also where a count has
/// reached `usize::MAX`.
pub proof fn lemma_plus_joined(counts: Map<char, usize>, first: Seq<char>, second: Seq<char>)
    ensures
        plus(plus(counts, first), second) == plus(counts, first + second),
{
    assert forall|c: char|
        occurrences(first + second, c) == occurrences(first, c) + occurrences(second, c) by {
        lemma_occurrences_of_joined(first, second, c);
    }
}

/// Counting no letters changes nothing.
pub proof fn lemma_plus_nothing(counts: Map<char, usize>)
    ensures
        plus(counts, Seq::empty()) == counts,
{
    assert(plus(counts, Seq::empty()) =~= counts);
}

/// The letters of joined texts are the letters of each, joined.
pub proof fn lemma_letters_of_joined(first: Seq<char>, second: Seq<char>)
    ensures
        letters(first + second) == letters(first) + letters(second),
    decreases second.len(),
{
    if second.len() == 0 {
        assert(first + second =~= first);
    } else {
        assert((first + second).drop_last() =~= first + second.drop_last());
        lemma_letters_of_joined(first, second.drop_last());
    }
}

/// Two sets of counts added up, letter by letter.
pub open spec fn merged(first: Map<char, usize>, second: Map<char, usize>) -> Map<char, usize> {
    Map::new(
        |c: char| first.contains_key(c) || second.contains_key(c),
        |c: char| capped((count_in(first, c) + count_in(second, c)) as int),
    )
}

/// Shares may be counted apart: the counts of two runs of letters, each
/// counted from nothing and then added up, are the counts of the two runs
/// joined.
pub proof fn lemma_merged_shares(first: Seq<char>, second: Seq<char>)
    ensures
        merged(plus(Map::empty(), first), plus(Map::empty(), second)) == plus(
            Map::empty(),
            first + second,
        ),
{
    assert forall|c: char|
        occurrences(first + second, c) == occurrences(first, c) + occurrences(second, c) by {
        lemma_occurrences_of_joined(first, second, c);
    }
    assert(merged(plus(Map::empty(), first), plus(Map::empty(), second)) =~= plus(
        Map::empty(),
        first + second,
    ));
}

/// Whether one of the first `n` entries is the entry of the letter `c`.
spec fn is_among(entries: Seq<(&u32, &usize)>, n: int, c: char) -> bool {
    exists|i: int| 0 <= i < n && *(#[trigger] entries[i]).0 == c as u32
}

/// Whether `code` is the number of a character.
pub open spec fn is_char_code(code: u32) -> bool {
    code <= 0xD7FF || 0xE000 <= code <= 0x10FFFF
}

/// Letter counts. Only letters that were counted at least once are present.
pub struct Tally {
    /// The count of each letter, under the letter's number.
    counts: HashMap<u32, usize>,
}

impl Tally {
    /// The count of each letter that occurred.
    pub closed spec fn view(&self) -> Map<char, usize> {
        Map::new(|c: char| self.counts@.contains_key(c as u32), |c: char| self.counts@[c as u32])
    }

    #[verifier::type_invariant]
    spec fn well_formed(&self) -> bool {
        forall|code: u32| #[trigger]
            self.counts@.contains_key(code) ==> is_char_code(code) && self.counts@[code] > 0
    }

    /// Creates a tally in which nothing has been counted.
    pub fn new() -> (tally: Self)
        ensures
            tally@ == Map::<char, usize>::empty(),
    {
        Tally { counts: HashMap::new() }
    }

    /// Counts `times` more occurrences of `c`.
    pub fn add(&mut self, c: char, times: usize)
        ensures
            final(self)@ == if times == 0 {
                old(self)@
            } else {
                old(self)@.insert(c, capped(count_in(old(self)@, c) + times))
            },
    {
        proof {
            use_type_invariant(&*self);
        }
        if times == 0 {
            return ;
        }
        let ghost before = *self;
        let code = c as u32;
        let seen = self.count(c);
        let raised = if times <= usize::MAX - seen {
            seen + times
        } else {
            usize::MAX
        };
        let mut taken = Self::new();
        std::mem::swap(self, &mut taken);
        let Tally { mut counts } = taken;
        counts.insert(code, raised);
        proof {
            let ghost model = Tally { counts };
            let ghost want = before@.insert(c, raised);
            assert forall|other: char|
                #![trigger model@.dom().contains(other)]
                #![trigger want.dom().contains(other)]
                (model@.dom().contains(other) <==> want.dom().contains(other)) && (
                model@.dom().contains(other) ==> model@[other] == want[other]) by {
                if other != c {
                    vstd::utf8::char_u32_cast(other, other as u32);
                    vstd::utf8::char_u32_cast(c, code);
                }
            }
        }
        *self = Tally { counts };
    }

    /// Counts the letters of `text`.
    pub fn add_text(&mut self, text: &str)
        ensures
            final(self)@ == plus(old(self)@, letters(text@)),
    {
        let ghost before = self@;
        proof {
            lemma_plus_nothing(before);
        }
        for c in it: text.chars()
            invariant
                it.seq() == text@,
                self@ == plus(before, letters(text@.take(it.index() as int))),
        {
            let ghost i = it.index() as int;
            let ghost counted = letters(text@.take(i));
            proof {
                assert(text@.take(i + 1).drop_last() =~= text@.take(i));
            }
            if c.is_alphabetic() {
                let mut lower = c.to_lowercase();
                let ghost whole = lowercase(c);
                let ghost mut taken: int = 0;
                proof {
                    assert(counted + whole.take(0) =~= counted);
                    assert(whole.skip(0) =~= whole);
                }
                loop
                    invariant_except_break
                        0 <= taken <= whole.len(),
                        yet_to_yield(lower) == whole.skip(taken),
                        self@ == plus(before, counted + whole.take(taken)),
                    ensures
                        self@ == plus(before, counted + whole),
                    decreases whole.len() - taken,
                {
                    let ghost so_far = counted + whole.take(taken);
                    match next_lower(&mut lower) {
                        Some(letter) => {
                            proof {
                                assert(counted + whole.take(taken + 1) =~= so_far.push(letter));
                                assert(so_far.push(letter).drop_last() =~= so_far);
                                assert(whole.skip(taken).drop_first() =~= whole.skip(taken + 1));
                                taken = taken + 1;
                            }
                            self.add(letter, 1);
                        },
                        None => {
                            assert(whole.take(taken) =~= whole);
                            break ;
                        },
                    }
                }
            }
        }
        assert(text@.take(text@.len() as int) =~= text@);
    }

    /// Adds the counts of `other` to these, letter by letter.
    pub fn absorb(&mut self, other: &Tally)
        ensures
            final(self)@ == merged(old(self)@, other@),
    {
        proof {
            use_type_invariant(other);
        }
        let ghost before = self@;
        let ghost entries = other.counts.iter().remaining();
        let ghost mut done: int = 0;
        for entry in it: other.counts.iter()
            invariant
                it.seq() == entries,
                done == it.index(),
                forall|i: int|
                    #![trigger it.seq()[i]]
                    0 <= i < it.seq().len() ==> other.counts@.contains_key(*it.seq()[i].0)
                        && other.counts@[*it.seq()[i].0] == *it.seq()[i].1,
                forall|code: u32| #[trigger]
                    other.counts@.contains_key(code) ==> is_char_code(code)
                        && other.counts@[code] > 0 && it.seq().contains(
                        (&code, &other.counts@[code]),
                    ),
                it.seq().no_duplicates(),
                forall|c: char|
                    #![trigger self@.dom().contains(c)]
                    self@.contains_key(c) <==> before.contains_key(c) || is_among(
                        it.seq(),
                        it.index() as int,
                        c,
                    ),
                forall|c: char|
                    #![trigger self@[c]]
                    self@.contains_key(c) ==> self@[c] == if is_among(
                        it.seq(),
                        it.index() as int,
                        c,
                    ) {
                        capped((count_in(before, c) + count_in(other@, c)) as int)
                    } else {
                        before[c]
                    },
        {
            let ghost k = it.index() as int;
            let (code, count) = entry;
            if let Some(c) = char::from_u32(*code) {
                self.add(c, *count);
                proof {
                    assert(!is_among(entries, k, c)) by {
                        if is_among(entries, k, c) {
                            let i = choose|i: int|
                                0 <= i < k && *(#[trigger] entries[i]).0 == c as u32;
                        }
                    }
                    assert forall|d: char|
                        is_among(entries, k + 1, d) <==> d == c || is_among(
                            entries,
                            k,
                            d,
                        ) by {
                        if d != c {
                            vstd::utf8::char_u32_cast(d, d as u32);
                            vstd::utf8::char_u32_cast(c, *code);
                        }
                        if is_among(entries, k + 1, d) && d != c {
                            let i = choose|i: int|
                                0 <= i < k + 1 && *(#[trigger] entries[i]).0 == d as u32;
                        }
                        if is_among(entries, k, d) {
                            let i = choose|i: int|
                                0 <= i < k && *(#[trigger] entries[i]).0 == d as u32;
                        }
                        if d == c {
                            assert(*entries[k].0 == d as u32);
                        }
                    }
                }
            }
            proof {
                done = done + 1;
            }
        }
        proof {
            assert forall|c: char| other@.contains_key(c) <==> is_among(
                entries,
                entries.len() as int,
                c,
            ) by {
                if other@.contains_key(c) {
                    let pair = (&(c as u32), &other.counts@[c as u32]);
                    let i = choose|i: int| 0 <= i < entries.len() && entries[i] == pair;
                }
                if is_among(entries, entries.len() as int, c) {
                    let i = choose|i: int|
                        0 <= i < entries.len() && *(#[trigger] entries[i]).0 == c as u32;
                }
            }
        }
    }

    /// Hands the counts out, each under the number of its letter.
    pub fn into_counts(self) -> (counts: HashMap<u32, usize>)
        ensures
            forall|code: u32| #[trigger]
                counts@.contains_key(code) ==> is_char_code(code) && counts@[code] > 0,
            forall|c: char|
                #![trigger self@.dom().contains(c)]
                self@.contains_key(c) <==> counts@.contains_key(c as u32),
            forall|c: char|
                #![trigger self@[c]]
                self@.contains_key(c) ==> self@[c] == counts@[c as u32],
    {
        proof {
            use_type_invariant(&self);
        }
        self.counts
    }

    /// The count of `c`, zero where it never occurred.
    pub fn count(&self, c: char) -> (count: usize)
        ensures
            count == count_in(self@, c),
    {
        match self.counts.get(&(c as u32)) {
            Some(count) => *count,
            None => 0,
        }
    }
}

/// Counts the letters of every text in `texts`, letter case ignored.
pub fn tally_texts(texts: &[&str]) -> (tally: Tally)
    ensures
        tally@ == plus(Map::empty(), letters_of_all(texts@)),
{
    let mut tally = Tally::new();
    let mut i: usize = 0;
    proof {
        lemma_plus_nothing(Map::<char, usize>::empty());
    }
    while i < texts.len()
        invariant
            i <= texts@.len(),
            tally@ == plus(Map::empty(), letters_of_all(texts@.take(i as int))),
        decreases texts@.len() - i,
    {
        proof {
            assert(texts@.take(i + 1).drop_last() =~= texts@.take(i as int));
            lemma_plus_joined(
                Map::empty(),
                letters_of_all(texts@.take(i as int)),
                letters(texts@[i as int]@),
            );
        }
        tally.add_text(texts[i]);
        i += 1;
    }
    assert(texts@.take(texts@.len() as int) =~= texts@);
    tally
}

/// Where share `k` of `total` items begins when they are dealt out to
/// `shares` workers in order, as evenly as can be: the first shares hold one
/// item more than the others where the division leaves a rest.
pub open spec fn share_start(total: nat, shares: nat, k: nat) -> nat {
    if shares == 0 || k >= shares {
        total
    } else if k < total % shares {
        k * (total / shares) + k
    } else {
        k * (total / shares) + total % shares
    }
}

/// The shares follow one another from the first item to the last, without
/// gaps and without overlap.
pub proof fn lemma_shares_tile(total: nat, shares: nat, k: nat)
    requires
        shares > 0,
    ensures
        share_start(total, shares, 0) == 0,
        share_start(total, shares, shares) == total,
        share_start(total, shares, k) <= share_start(total, shares, k + 1) <= total,
{
    let each = total / shares;
    let rest = total % shares;
    assert(total == shares * each + rest && rest < shares) by (nonlinear_arith)
        requires
            shares > 0,
            each == total / shares,
            rest == total % shares,
    ;
    if k + 1 < shares {
        assert((k + 1) * each == k * each + each && (k + 1) * each + each <= shares * each)
            by (nonlinear_arith)
            requires
                k + 1 < shares,
        ;
    } else if k + 1 == shares {
        assert(k * each + each == shares * each) by (nonlinear_arith)
            requires
                k + 1 == shares,
        ;
    }
}

/// How many workers to use for `texts` texts when `requested` were asked
/// for: never more than there are texts, and one at least.
pub fn worker_count_for(requested: usize, texts: usize) -> (workers: usize)
    ensures
        workers >= 1,
        workers == if requested == 0 || texts == 0 {
            1
        } else if requested <= texts {
            requested
        } else {
            texts
        },
{
    if requested == 0 || texts == 0 {
        1
    } else if requested <= texts {
        requested
    } else {
        texts
    }
}

/// Computes where share `k` begins.
fn share_begin(total: usize, shares: usize, k: usize) -> (begin: usize)
    ensures
        begin == share_start(total as nat, shares as nat, k as nat),
{
    if shares == 0 || k >= shares {
        return total;
    }
    let each = total / shares;
    let rest = total % shares;
    assert(total == shares * each + rest && k * each + each <= shares * each) by (nonlinear_arith)
        requires
            0 <= k < shares,
            each == total / shares,
            rest == total % shares,
    ;
    if k < rest {
        k * each + k
    } else {
        k * each + rest
    }
}

/// The range of items that make up share `k` of `total` items dealt out to
/// `shares` workers: from the first bound up to, not including, the second.
/// A share that does not exist is empty.
pub fn share_range(total: usize, shares: usize, k: usize) -> (range: (usize, usize))
    ensures
        range.0 == share_start(total as nat, shares as nat, k as nat),
        range.1 == share_start(total as nat, shares as nat, (k + 1) as nat),
        range.0 <= range.1 <= total,
{
    if shares == 0 || k >= shares {
        return (total, total);
    }
    proof {
        lemma_shares_tile(total as nat, shares as nat, k as nat);
    }
    (share_begin(total, shares, k), share_begin(total, shares, k + 1))
}

/// The letters of joined batches are the letters of each, joined.
pub proof fn lemma_letters_of_all_joined(first: Seq<&str>, second: Seq<&str>)
    ensures
        letters_of_all(first + second) == letters_of_all(first) + letters_of_all(second),
    decreases second.len(),
{
    if second.len() == 0 {
        assert(first + second =~= first);
        assert(letters_of_all(first) + letters_of_all(second) =~= letters_of_all(first));
    } else {
        assert((first + second).drop_last() =~= first + second.drop_last());
        lemma_letters_of_all_joined(first, second.drop_last());
        assert(letters_of_all(first + second) =~= letters_of_all(first) + letters_of_all(second));
    }
}

/// Counts the letters of every text in `texts` the way a team of workers
/// does: the texts are dealt out in consecutive shares, each share is
/// counted from nothing, and the counts of the shares are added up. The
/// outcome is the count of the whole batch, however many workers were asked
/// for.
pub fn tally_in_shares(texts: &[&str], requested: usize) -> (tally: Tally)
    ensures
        tally@ == plus(Map::empty(), letters_of_all(texts@)),
{
    let workers = worker_count_for(requested, texts.len());
    let mut total = Tally::new();
    let mut k: usize = 0;
    proof {
        lemma_plus_nothing(Map::<char, usize>::empty());
        lemma_shares_tile(texts@.len(), workers as nat, 0);
        assert(texts@.take(0) =~= Seq::<&str>::empty());
    }
    while k < workers
        invariant
            workers >= 1,
            k <= workers,
            total@ == plus(
                Map::empty(),
                letters_of_all(
                    texts@.take(share_start(texts@.len(), workers as nat, k as nat) as int),
                ),
            ),
        decreases workers - k,
    {
        let (begin, end) = share_range(texts.len(), workers, k);
        let share = vstd::slice::slice_subrange(texts, begin, end);
        let counted = tally_texts(share);
        proof {
            let ghost done = texts@.take(begin as int);
            assert(done + share@ =~= texts@.take(end as int));
            lemma_letters_of_all_joined(done, share@);
            lemma_merged_shares(letters_of_all(done), letters_of_all(share@));
        }
        total.absorb(&counted);
        k += 1;
    }
    proof {
        lemma_shares_tile(texts@.len(), workers as nat, 0);
        assert(texts@.take(texts@.len() as int) =~= texts@);
    }
    total
}

} // verus!
