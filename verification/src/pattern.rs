//! The pattern language: atoms, parsed patterns, and the grammar that turns
//! pattern text into atoms.

use vstd::prelude::*;

verus! {

/// The character that marks the preceding atom as repeatable.
pub const REPEAT_MARKER: char = '*';

/// The character that stands for "any single character".
pub const WILDCARD: char = '.';

/// What a single atom accepts.
#[derive(Clone, Copy, Debug, PartialEq, Eq, Structural)]
pub enum AtomKind {
    /// Exactly this character.
    Literal(char),
    /// Any one character.
    Wildcard,
}

/// One matching unit of a pattern.
#[derive(Clone, Copy, Debug, PartialEq, Eq, Structural)]
pub struct Atom {
    pub kind: AtomKind,
    /// Whether the atom was followed by the repeat marker.
    pub repeatable: bool,
}

impl Atom {
    /// Whether this atom accepts the character `c` as one occurrence.
    pub open spec fn accepts(self, c: char) -> bool {
        match self.kind {
            AtomKind::Wildcard => true,
            AtomKind::Literal(x) => x == c,
        }
    }

    /// Tests one character against this atom.
    pub fn matches_char(&self, c: char) -> (accepted: bool)
        ensures
            accepted == self.accepts(c),
    {
        match self.kind {
            AtomKind::Wildcard => true,
            AtomKind::Literal(x) => x == c,
        }
    }
}

/// A parsed pattern: its atoms in order, or the marker for pattern text that
/// breaks the grammar.
#[derive(Debug, PartialEq, Eq)]
pub enum Pattern {
    Atoms(Vec<Atom>),
    Invalid,
}

impl View for Pattern {
    type V = Option<Seq<Atom>>;

    open spec fn view(&self) -> Option<Seq<Atom>> {
        match self {
            Pattern::Atoms(atoms) => Some(atoms@),
            Pattern::Invalid => None,
        }
    }
}

/// The atom that the pattern character `c` stands for.
pub open spec fn atom_of(c: char, repeatable: bool) -> Atom {
    Atom { kind: if c == WILDCARD { AtomKind::Wildcard } else { AtomKind::Literal(c) }, repeatable }
}

/// The grammar of patterns. A pattern is a run of items, each one character
/// other than the repeat marker, optionally followed by one repeat marker.
/// Text that cannot be split this way has no atoms.
pub open spec fn parse_spec(s: Seq<char>) -> Option<Seq<Atom>>
    decreases s.len(),
{
    if s.len() == 0 {
        Some(Seq::empty())
    } else if s.last() != REPEAT_MARKER {
        match parse_spec(s.drop_last()) {
            Some(atoms) => Some(atoms.push(atom_of(s.last(), false))),
            None => None,
        }
    } else if s.len() >= 2 && s[s.len() - 2] != REPEAT_MARKER {
        match parse_spec(s.take(s.len() - 2)) {
            Some(atoms) => Some(atoms.push(atom_of(s[s.len() - 2], true))),
            None => None,
        }
    } else {
        None
    }
}

/// Collects the characters of `s` in order.
pub fn code_points(s: &str) -> (chars: Vec<char>)
    ensures
        chars@ == s@,
{
    let mut chars: Vec<char> = Vec::new();
    for c in it: s.chars()
        invariant
            chars@ == it.seq().take(it.index() as int),
    {
        chars.push(c);
    }
    chars
}

/// Pattern text whose prefix breaks the grammar breaks it as a whole.
pub proof fn lemma_invalid_prefix(s: Seq<char>, n: int)
    requires
        0 <= n <= s.len(),
        parse_spec(s.take(n)) is None,
    ensures
        parse_spec(s) is None,
    decreases s.len(),
{
    if n == s.len() {
        assert(s.take(n) =~= s);
    } else if s.last() != REPEAT_MARKER {
        assert(s.drop_last().take(n) =~= s.take(n));
        lemma_invalid_prefix(s.drop_last(), n);
    } else if s.len() >= 2 && s[s.len() - 2] != REPEAT_MARKER {
        let front = s.take(s.len() - 2);
        if n == s.len() - 1 {
            // The prefix ends in the atom that the final marker repeats.
            assert(s.take(n).drop_last() =~= front);
        } else {
            assert(front.take(n) =~= s.take(n));
            lemma_invalid_prefix(front, n);
        }
    }
}

/// What breaks the grammar: a repeat marker at the very start, or a repeat
/// marker directly after another one.
pub open spec fn is_malformed(s: Seq<char>) -> bool {
    ||| s.len() > 0 && s[0] == REPEAT_MARKER
    ||| exists|i: int| 1 <= i < s.len() && s[i - 1] == REPEAT_MARKER && #[trigger] s[i] == REPEAT_MARKER
}

/// Pattern text has no atoms exactly when it starts with a repeat marker or
/// holds two repeat markers in a row.
pub proof fn lemma_invalid_iff_malformed(s: Seq<char>)
    ensures
        parse_spec(s) is None <==> is_malformed(s),
    decreases s.len(),
{
    let n = s.len() as int;
    if n == 0 {
    } else if s.last() != REPEAT_MARKER {
        let front = s.drop_last();
        lemma_invalid_iff_malformed(front);
        if is_malformed(front) {
            if !(front.len() > 0 && front[0] == REPEAT_MARKER) {
                let i = choose|i: int|
                    1 <= i < front.len() && front[i - 1] == REPEAT_MARKER && #[trigger] front[i]
                        == REPEAT_MARKER;
            }
        }
        if is_malformed(s) {
            if !(s[0] == REPEAT_MARKER) {
                let i = choose|i: int|
                    1 <= i < s.len() && s[i - 1] == REPEAT_MARKER && #[trigger] s[i]
                        == REPEAT_MARKER;
                assert(front[i - 1] == REPEAT_MARKER && front[i] == REPEAT_MARKER);
            }
        }
    } else if n >= 2 && s[n - 2] != REPEAT_MARKER {
        let front = s.take(n - 2);
        lemma_invalid_iff_malformed(front);
        if is_malformed(front) {
            if !(front.len() > 0 && front[0] == REPEAT_MARKER) {
                let i = choose|i: int|
                    1 <= i < front.len() && front[i - 1] == REPEAT_MARKER && #[trigger] front[i]
                        == REPEAT_MARKER;
            }
        }
        if is_malformed(s) {
            if !(s[0] == REPEAT_MARKER) {
                let i = choose|i: int|
                    1 <= i < s.len() && s[i - 1] == REPEAT_MARKER && #[trigger] s[i]
                        == REPEAT_MARKER;
                assert(front[i - 1] == REPEAT_MARKER && front[i] == REPEAT_MARKER);
            }
        }
    } else if n >= 2 {
        assert(s[n - 2] == REPEAT_MARKER && s[n - 1] == REPEAT_MARKER);
    }
}

/// The pattern text of one atom: its character, then the repeat marker if
/// the atom is repeatable.
pub open spec fn atom_text(atom: Atom) -> Seq<char> {
    let c = match atom.kind {
        AtomKind::Wildcard => WILDCARD,
        AtomKind::Literal(x) => x,
    };
    if atom.repeatable {
        seq![c, REPEAT_MARKER]
    } else {
        seq![c]
    }
}

/// The pattern text of a run of atoms.
pub open spec fn render(atoms: Seq<Atom>) -> Seq<char>
    decreases atoms.len(),
{
    if atoms.len() == 0 {
        Seq::empty()
    } else {
        render(atoms.drop_last()) + atom_text(atoms.last())
    }
}

/// Atoms as the grammar produces them: a literal is never one of the two
/// special characters.
pub open spec fn is_canonical(atom: Atom) -> bool {
    atom.kind matches AtomKind::Literal(x) ==> x != WILDCARD && x != REPEAT_MARKER
}

/// Parsing loses nothing: the atoms of pattern text are canonical and
/// render back to that text.
pub proof fn lemma_parse_then_render(s: Seq<char>)
    requires
        parse_spec(s) is Some,
    ensures
        render(parse_spec(s).unwrap()) == s,
        forall|i: int|
            0 <= i < parse_spec(s).unwrap().len() ==> is_canonical(
                #[trigger] parse_spec(s).unwrap()[i],
            ),
    decreases s.len(),
{
    let n = s.len() as int;
    if n == 0 {
    } else {
        let front = if s.last() != REPEAT_MARKER {
            s.drop_last()
        } else {
            s.take(n - 2)
        };
        lemma_parse_then_render(front);
        let atoms = parse_spec(s).unwrap();
        assert(atoms.drop_last() =~= parse_spec(front).unwrap());
    }
}

/// Rendering loses nothing: canonical atoms are what their pattern text
/// parses to.
pub proof fn lemma_render_then_parse(atoms: Seq<Atom>)
    requires
        forall|i: int| 0 <= i < atoms.len() ==> is_canonical(#[trigger] atoms[i]),
    ensures
        parse_spec(render(atoms)) == Some(atoms),
    decreases atoms.len(),
{
    if atoms.len() > 0 {
        let front = atoms.drop_last();
        lemma_render_then_parse(front);
        let s = render(atoms);
        let n = s.len() as int;
        if atoms.last().repeatable {
            assert(s.take(n - 2) =~= render(front));
        } else {
            assert(s.drop_last() =~= render(front));
        }
    }
}

/// Parses pattern text into its atoms, scanning left to right. A repeat
/// marker with no atom before it, or directly after another repeat marker,
/// makes the whole pattern `Invalid`.
pub fn parse(pattern: &str) -> (parsed: Pattern)
    ensures
        parsed@ == parse_spec(pattern@),
        parsed is Invalid <==> is_malformed(pattern@),
        parsed matches Pattern::Atoms(atoms) ==> render(atoms@) == pattern@,
{
    proof {
        lemma_invalid_iff_malformed(pattern@);
        if parse_spec(pattern@) is Some {
            lemma_parse_then_render(pattern@);
        }
    }
    let mut atoms: Vec<Atom> = Vec::new();
    for c in it: pattern.chars()
        invariant
            it.seq() == pattern@,
            parse_spec(pattern@.take(it.index() as int)) == Some(atoms@),
            atoms@.len() == 0 <==> it.index() == 0,
            it.index() > 0 ==> (atoms@.last().repeatable <==> pattern@[it.index() - 1]
                == REPEAT_MARKER),
    {
        let ghost i = it.index() as int;
        let ghost before = pattern@.take(i);
        let ghost upto = pattern@.take(i + 1);
        assert(upto.drop_last() =~= before);
        if c == REPEAT_MARKER {
            let n = atoms.len();
            if n == 0 || atoms[n - 1].repeatable {
                proof {
                    lemma_invalid_prefix(pattern@, i + 1);
                }
                return Pattern::Invalid;
            }
            let kind = atoms[n - 1].kind;
            proof {
                assert(upto.take(upto.len() - 2) =~= before.drop_last());
            }
            atoms.set(n - 1, Atom { kind, repeatable: true });
            assert(atoms@ =~= parse_spec(before.drop_last()).unwrap().push(
                atom_of(before.last(), true),
            ));
        } else if c == WILDCARD {
            atoms.push(Atom { kind: AtomKind::Wildcard, repeatable: false });
        } else {
            atoms.push(Atom { kind: AtomKind::Literal(c), repeatable: false });
        }
    }
    assert(pattern@.take(pattern@.len() as int) =~= pattern@);
    Pattern::Atoms(atoms)
}

} // verus!
