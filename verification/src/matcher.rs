//! Full-text matching of a parsed pattern, decided bottom-up over prefixes of
//! the pattern and prefixes of the text.

use crate::pattern::{parse_spec, Atom, Pattern};
use vstd::prelude::*;

verus! {

/// Whether `atom` accepts every character of `run`.
pub open spec fn accepts_all(atom: Atom, run: Seq<char>) -> bool {
    forall|k: int| 0 <= k < run.len() ==> atom.accepts(#[trigger] run[k])
}

/// What it means for `atoms` to account for the whole of `text`: the text
/// splits into consecutive pieces, one per atom in order, where the piece of
/// a plain atom is one accepted character and the piece of a repeatable atom
/// is any number of accepted characters, possibly none.
pub open spec fn full_match(atoms: Seq<Atom>, text: Seq<char>) -> bool
    decreases atoms.len(),
{
    if atoms.len() == 0 {
        text.len() == 0
    } else if atoms.last().repeatable {
        exists|k: int|
            #![trigger text.take(k)]
            0 <= k <= text.len() && full_match(atoms.drop_last(), text.take(k)) && accepts_all(
                atoms.last(),
                text.skip(k),
            )
    } else {
        text.len() > 0 && atoms.last().accepts(text.last()) && full_match(
            atoms.drop_last(),
            text.drop_last(),
        )
    }
}

/// Whether a parsed pattern matches `text`. Invalid patterns match nothing.
pub open spec fn matches_spec(pattern: Option<Seq<Atom>>, text: Seq<char>) -> bool {
    match pattern {
        Some(atoms) => full_match(atoms, text),
        None => false,
    }
}

/// Whether pattern text matches `text`.
pub open spec fn is_match_spec(pattern: Seq<char>, text: Seq<char>) -> bool {
    matches_spec(parse_spec(pattern), text)
}

/// The entry of the match table for the first `i` atoms and the first `j`
/// characters.
pub open spec fn table(atoms: Seq<Atom>, text: Seq<char>, i: int, j: int) -> bool {
    full_match(atoms.take(i), text.take(j))
}

/// A repeatable atom at the end of a pattern either takes nothing, or takes
/// the last character of the text and stays available for the rest.
pub proof fn lemma_repeatable_step(atoms: Seq<Atom>, text: Seq<char>)
    requires
        atoms.len() > 0,
        atoms.last().repeatable,
    ensures
        full_match(atoms, text) <==> (full_match(atoms.drop_last(), text) || (text.len() > 0
            && atoms.last().accepts(text.last()) && full_match(atoms, text.drop_last()))),
{
    let atom = atoms.last();
    let rest = atoms.drop_last();
    let shorter = text.drop_last();
    if full_match(atoms, text) {
        let k = choose|k: int|
            #![trigger text.take(k)]
            0 <= k <= text.len() && full_match(rest, text.take(k)) && accepts_all(
                atom,
                text.skip(k),
            );
        if k == text.len() {
            assert(text.take(k) =~= text);
        } else {
            assert(shorter.take(k) =~= text.take(k));
            assert(text.skip(k)[text.len() - 1 - k] == text.last());
            assert forall|m: int| 0 <= m < shorter.skip(k).len() implies atom.accepts(
                #[trigger] shorter.skip(k)[m],
            ) by {
                assert(shorter.skip(k)[m] == text.skip(k)[m]);
            }
        }
    }
    if full_match(rest, text) {
        let k = text.len() as int;
        assert(text.take(k) =~= text);
    }
    if text.len() > 0 && atom.accepts(text.last()) && full_match(atoms, shorter) {
        let k = choose|k: int|
            #![trigger shorter.take(k)]
            0 <= k <= shorter.len() && full_match(rest, shorter.take(k)) && accepts_all(
                atom,
                shorter.skip(k),
            );
        assert(text.take(k) =~= shorter.take(k));
        assert forall|m: int| 0 <= m < text.skip(k).len() implies atom.accepts(
            #[trigger] text.skip(k)[m],
        ) by {
            if m < shorter.skip(k).len() {
                assert(text.skip(k)[m] == shorter.skip(k)[m]);
            }
        }
    }
}

/// How each entry of the match table follows from entries above it and to
/// its left. A plain atom needs the entry diagonally above and must accept
/// the character at hand. A repeatable atom may be skipped (the entry above),
/// or accept the character at hand and be used again (the entry to the left).
pub proof fn lemma_table_step(atoms: Seq<Atom>, text: Seq<char>, i: int, j: int)
    requires
        0 <= i < atoms.len(),
        0 <= j <= text.len(),
    ensures
        table(atoms, text, i + 1, j) <==> if atoms[i].repeatable {
            table(atoms, text, i, j) || (j > 0 && atoms[i].accepts(text[j - 1]) && table(
                atoms,
                text,
                i + 1,
                j - 1,
            ))
        } else {
            j > 0 && atoms[i].accepts(text[j - 1]) && table(atoms, text, i, j - 1)
        },
{
    let upto = atoms.take(i + 1);
    let seen = text.take(j);
    assert(upto.drop_last() =~= atoms.take(i));
    if j > 0 {
        assert(seen.drop_last() =~= text.take(j - 1));
    }
    if atoms[i].repeatable {
        lemma_repeatable_step(upto, seen);
    }
}

/// The first row of the match table: no atoms account for the empty text
/// only.
pub proof fn lemma_table_first_row(atoms: Seq<Atom>, text: Seq<char>, j: int)
    requires
        0 <= j <= text.len(),
    ensures
        table(atoms, text, 0, j) <==> j == 0,
{
}

/// The last entry of the match table is the answer for the whole pattern and
/// the whole text.
pub proof fn lemma_table_last_entry(atoms: Seq<Atom>, text: Seq<char>)
    ensures
        table(atoms, text, atoms.len() as int, text.len() as int) <==> full_match(atoms, text),
{
    assert(atoms.take(atoms.len() as int) =~= atoms);
    assert(text.take(text.len() as int) =~= text);
}

/// The empty pattern matches the empty text and nothing else.
pub proof fn lemma_empty_pattern(text: Seq<char>)
    ensures
        is_match_spec(Seq::empty(), text) <==> text.len() == 0,
{
}

/// Pattern text that breaks the grammar matches no text, the empty text
/// included.
pub proof fn lemma_invalid_matches_nothing(pattern: Seq<char>, text: Seq<char>)
    requires
        parse_spec(pattern) is None,
    ensures
        !is_match_spec(pattern, text),
{
}

/// The empty text is matched exactly by patterns whose atoms are all
/// repeatable.
pub proof fn lemma_empty_text(atoms: Seq<Atom>)
    ensures
        full_match(atoms, Seq::empty()) <==> forall|i: int|
            0 <= i < atoms.len() ==> (#[trigger] atoms[i]).repeatable,
    decreases atoms.len(),
{
    let nothing = Seq::<char>::empty();
    if atoms.len() > 0 {
        let rest = atoms.drop_last();
        lemma_empty_text(rest);
        if atoms.last().repeatable {
            lemma_repeatable_step(atoms, nothing);
        }
        if forall|i: int| 0 <= i < atoms.len() ==> (#[trigger] atoms[i]).repeatable {
            assert forall|i: int| 0 <= i < rest.len() implies (#[trigger] rest[i]).repeatable by {
                assert(atoms[i].repeatable);
            }
        }
        if full_match(atoms, nothing) {
            assert forall|i: int| 0 <= i < atoms.len() implies (#[trigger] atoms[i]).repeatable by {
                if i < rest.len() {
                    assert(rest[i].repeatable);
                }
            }
        }
    }
}

/// The first column of the match table: the first `i` atoms account for the
/// empty text exactly when each of them is repeatable.
pub proof fn lemma_table_first_column(atoms: Seq<Atom>, text: Seq<char>, i: int)
    requires
        0 <= i <= atoms.len(),
    ensures
        table(atoms, text, i, 0) <==> forall|k: int|
            0 <= k < i ==> (#[trigger] atoms[k]).repeatable,
{
    let upto = atoms.take(i);
    lemma_empty_text(upto);
    assert(text.take(0) =~= Seq::<char>::empty());
    if forall|k: int| 0 <= k < i ==> (#[trigger] atoms[k]).repeatable {
        assert forall|k: int| 0 <= k < upto.len() implies (#[trigger] upto[k]).repeatable by {
            assert(atoms[k].repeatable);
        }
    }
    if forall|k: int| 0 <= k < upto.len() ==> (#[trigger] upto[k]).repeatable {
        assert forall|k: int| 0 <= k < i implies (#[trigger] atoms[k]).repeatable by {
            assert(upto[k].repeatable);
        }
    }
}

/// A pattern without repeatable atoms matches only texts with exactly one
/// character per atom: an atom never takes part of a character or more than
/// one.
pub proof fn lemma_plain_atoms_take_one_each(atoms: Seq<Atom>, text: Seq<char>)
    requires
        forall|i: int| 0 <= i < atoms.len() ==> !(#[trigger] atoms[i]).repeatable,
    ensures
        full_match(atoms, text) <==> text.len() == atoms.len() && forall|i: int|
            0 <= i < atoms.len() ==> (#[trigger] atoms[i]).accepts(text[i]),
    decreases atoms.len(),
{
    if atoms.len() > 0 {
        let rest = atoms.drop_last();
        assert forall|i: int| 0 <= i < rest.len() implies !(#[trigger] rest[i]).repeatable by {
            assert(!atoms[i].repeatable);
        }
        if text.len() > 0 {
            let shorter = text.drop_last();
            lemma_plain_atoms_take_one_each(rest, shorter);
            if full_match(atoms, text) {
                assert forall|i: int| 0 <= i < atoms.len() implies (#[trigger] atoms[i]).accepts(
                    text[i],
                ) by {
                    if i < rest.len() {
                        assert(rest[i].accepts(shorter[i]));
                    }
                }
            }
            if text.len() == atoms.len() && forall|i: int|
                0 <= i < atoms.len() ==> (#[trigger] atoms[i]).accepts(text[i]) {
                assert forall|i: int| 0 <= i < rest.len() implies (#[trigger] rest[i]).accepts(
                    shorter[i],
                ) by {
                    assert(atoms[i].accepts(text[i]));
                }
            }
        }
    }
}

/// Whether the piece of `text` between the cuts `i` and `i + 1` is what atom
/// `i` may take: one accepted character for a plain atom, any number of
/// accepted characters for a repeatable one.
pub open spec fn piece_fits(atoms: Seq<Atom>, text: Seq<char>, cuts: Seq<int>, i: int) -> bool {
    &&& cuts[i] <= cuts[i + 1]
    &&& !atoms[i].repeatable ==> cuts[i + 1] == cuts[i] + 1
    &&& forall|k: int| cuts[i] <= k < cuts[i + 1] ==> atoms[i].accepts(#[trigger] text[k])
}

/// Whether `cuts` divides the whole of `text` among `atoms`: the pieces
/// start at the beginning of the text, follow one another without gaps, end
/// at the end of the text, and each fits its atom.
pub open spec fn is_split(atoms: Seq<Atom>, text: Seq<char>, cuts: Seq<int>) -> bool {
    &&& cuts.len() == atoms.len() + 1
    &&& cuts[0] == 0
    &&& cuts[atoms.len() as int] == text.len()
    &&& forall|i: int| 0 <= i < atoms.len() ==> #[trigger] piece_fits(atoms, text, cuts, i)
}

/// The cuts of a split never go backwards.
pub proof fn lemma_cuts_ordered(
    atoms: Seq<Atom>,
    text: Seq<char>,
    cuts: Seq<int>,
    i: int,
    j: int,
)
    requires
        is_split(atoms, text, cuts),
        0 <= i <= j <= atoms.len(),
    ensures
        cuts[i] <= cuts[j],
    decreases j - i,
{
    if i < j {
        assert(piece_fits(atoms, text, cuts, j - 1));
        lemma_cuts_ordered(atoms, text, cuts, i, j - 1);
    }
}

/// A text that the atoms account for can be divided among them.
pub proof fn lemma_match_gives_split(atoms: Seq<Atom>, text: Seq<char>) -> (cuts: Seq<int>)
    requires
        full_match(atoms, text),
    ensures
        is_split(atoms, text, cuts),
    decreases atoms.len(),
{
    if atoms.len() == 0 {
        seq![0int]
    } else {
        let rest = atoms.drop_last();
        let k = if atoms.last().repeatable {
            choose|k: int|
                #![trigger text.take(k)]
                0 <= k <= text.len() && full_match(rest, text.take(k)) && accepts_all(
                    atoms.last(),
                    text.skip(k),
                )
        } else {
            text.len() - 1
        };
        let shorter = text.take(k);
        let before = lemma_match_gives_split(rest, shorter);
        let cuts = before.push(text.len() as int);
        assert forall|i: int| 0 <= i < atoms.len() implies #[trigger] piece_fits(
            atoms,
            text,
            cuts,
            i,
        ) by {
            if i < rest.len() {
                assert(piece_fits(rest, shorter, before, i));
                lemma_cuts_ordered(rest, shorter, before, i + 1, rest.len() as int);
                lemma_cuts_ordered(rest, shorter, before, 0, i);
                assert forall|m: int| cuts[i] <= m < cuts[i + 1] implies atoms[i].accepts(
                    #[trigger] text[m],
                ) by {
                    assert(rest[i].accepts(shorter[m]));
                }
            } else {
                assert forall|m: int| cuts[i] <= m < cuts[i + 1] implies atoms[i].accepts(
                    #[trigger] text[m],
                ) by {
                    if atoms.last().repeatable {
                        assert(atoms.last().accepts(text.skip(k)[m - k]));
                    }
                }
            }
        }
        cuts
    }
}

/// A text that can be divided among the atoms is one they account for.
pub proof fn lemma_split_gives_match(atoms: Seq<Atom>, text: Seq<char>, cuts: Seq<int>)
    requires
        is_split(atoms, text, cuts),
    ensures
        full_match(atoms, text),
    decreases atoms.len(),
{
    if atoms.len() > 0 {
        let n = atoms.len() as int;
        let rest = atoms.drop_last();
        let k = cuts[n - 1];
        let shorter = text.take(k);
        let before = cuts.drop_last();
        lemma_cuts_ordered(atoms, text, cuts, 0, n - 1);
        assert(piece_fits(atoms, text, cuts, n - 1));
        assert forall|i: int| 0 <= i < rest.len() implies #[trigger] piece_fits(
            rest,
            shorter,
            before,
            i,
        ) by {
            assert(piece_fits(atoms, text, cuts, i));
            lemma_cuts_ordered(atoms, text, cuts, i + 1, n - 1);
            lemma_cuts_ordered(atoms, text, cuts, 0, i);
            assert forall|m: int| before[i] <= m < before[i + 1] implies rest[i].accepts(
                #[trigger] shorter[m],
            ) by {
                assert(atoms[i].accepts(text[m]));
            }
        }
        lemma_split_gives_match(rest, shorter, before);
        if atoms.last().repeatable {
            assert forall|m: int| 0 <= m < text.skip(k).len() implies atoms.last().accepts(
                #[trigger] text.skip(k)[m],
            ) by {
                assert(atoms[n - 1].accepts(text[k + m]));
            }
        } else {
            assert(shorter =~= text.drop_last());
        }
    }
}

/// Matching says no more and no less than this: the text can be divided
/// into consecutive pieces, one per atom in order, each of which fits its
/// atom.
pub proof fn lemma_match_iff_split(atoms: Seq<Atom>, text: Seq<char>)
    ensures
        full_match(atoms, text) <==> exists|cuts: Seq<int>| is_split(atoms, text, cuts),
{
    if full_match(atoms, text) {
        let cuts = lemma_match_gives_split(atoms, text);
    }
    if exists|cuts: Seq<int>| is_split(atoms, text, cuts) {
        let cuts = choose|cuts: Seq<int>| is_split(atoms, text, cuts);
        lemma_split_gives_match(atoms, text, cuts);
    }
}

/// Decides whether `pattern` accounts for the whole of `text`. The match
/// table is filled row by row, one row per atom, and only the current row is
/// kept: `row[j]` holds the entry for the first `j + 1` characters and
/// `empty` the entry for the empty text.
pub fn matches(pattern: &Pattern, text: &[char]) -> (matched: bool)
    ensures
        matched == matches_spec(pattern@, text@),
{
    match pattern {
        Pattern::Invalid => false,
        Pattern::Atoms(atoms) => {
            let n = text.len();
            let mut empty = true;
            let mut row: Vec<bool> = Vec::new();
            let mut j: usize = 0;
            while j < n
                invariant
                    j <= n,
                    n == text@.len(),
                    row@.len() == j,
                    forall|k: int| 0 <= k < j ==> #[trigger] row@[k] == table(atoms@, text@, 0, k + 1),
                decreases n - j,
            {
                row.push(false);
                j += 1;
            }
            let mut i: usize = 0;
            while i < atoms.len()
                invariant
                    i <= atoms@.len(),
                    n == text@.len(),
                    row@.len() == n,
                    empty == table(atoms@, text@, i as int, 0),
                    forall|k: int|
                        0 <= k < n ==> #[trigger] row@[k] == table(atoms@, text@, i as int, k + 1),
                decreases atoms@.len() - i,
            {
                let atom = atoms[i];
                // `diagonal` is the entry of the previous row one column to
                // the left, `left` the entry of this row one column to the
                // left.
                let mut diagonal = empty;
                proof {
                    lemma_table_step(atoms@, text@, i as int, 0);
                }
                if !atom.repeatable {
                    empty = false;
                }
                let mut left = empty;
                let mut j: usize = 0;
                while j < n
                    invariant
                        i < atoms@.len(),
                        atom == atoms@[i as int],
                        j <= n,
                        n == text@.len(),
                        row@.len() == n,
                        diagonal == table(atoms@, text@, i as int, j as int),
                        left == table(atoms@, text@, i + 1, j as int),
                        empty == table(atoms@, text@, i + 1, 0),
                        forall|k: int|
                            0 <= k < j ==> #[trigger] row@[k] == table(atoms@, text@, i + 1, k + 1),
                        forall|k: int|
                            j <= k < n ==> #[trigger] row@[k] == table(atoms@, text@, i as int, k + 1),
                    decreases n - j,
                {
                    let above = row[j];
                    let accepted = atom.matches_char(text[j]);
                    let entry = if atom.repeatable {
                        above || (accepted && left)
                    } else {
                        accepted && diagonal
                    };
                    proof {
                        lemma_table_step(atoms@, text@, i as int, j + 1);
                    }
                    row.set(j, entry);
                    diagonal = above;
                    left = entry;
                    j += 1;
                }
                i += 1;
            }
            proof {
                lemma_table_last_entry(atoms@, text@);
            }
            if n == 0 {
                empty
            } else {
                row[n - 1]
            }
        },
    }
}

} // verus!
