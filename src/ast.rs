use vstd::prelude::*;
use vstd::string::*;

use crate::error::Error;

verus! {

/// A predefined classification of characters, reached in a pattern through
/// `\d`, `\s`, `\l`, `\u` and their upper-case complements.
#[derive(Debug, Clone, Copy, PartialEq, Eq, Structural)]
pub enum CharacterClass {
    Digit,
    Whitespace,
    Lowercase,
    Uppercase,
}

impl CharacterClass {
    /// Whether `c` belongs to the class (ASCII classification).
    pub open spec fn holds(self, c: char) -> bool {
        match self {
            CharacterClass::Digit => '0' as u32 <= c as u32 && c as u32 <= '9' as u32,
            CharacterClass::Whitespace => c == ' ' || c == '\t' || c == '\n' || c == '\x0C'
                || c == '\r',
            CharacterClass::Lowercase => 'a' as u32 <= c as u32 && c as u32 <= 'z' as u32,
            CharacterClass::Uppercase => 'A' as u32 <= c as u32 && c as u32 <= 'Z' as u32,
        }
    }

    pub fn matches(&self, c: char) -> (r: bool)
        ensures
            r == self.holds(c),
    {
        let x = c as u32;
        match self {
            CharacterClass::Digit => '0' as u32 <= x && x <= '9' as u32,
            CharacterClass::Whitespace => c == ' ' || c == '\t' || c == '\n' || c == '\x0C' || c
                == '\r',
            CharacterClass::Lowercase => 'a' as u32 <= x && x <= 'z' as u32,
            CharacterClass::Uppercase => 'A' as u32 <= x && x <= 'Z' as u32,
        }
    }
}

/// Mathematical form of a character condition.
pub enum CharModel {
    Literal(char),
    Include(Seq<char>),
    Exclude(Seq<char>),
    IncludeClass(CharacterClass),
    ExcludeClass(CharacterClass),
}

impl CharModel {
    /// Whether the condition is satisfied by the input character `c`.
    pub open spec fn accepts(self, c: char) -> bool {
        match self {
            CharModel::Literal(l) => l == c,
            CharModel::Include(s) => s.contains(c),
            CharModel::Exclude(s) => !s.contains(c),
            CharModel::IncludeClass(k) => k.holds(c),
            CharModel::ExcludeClass(k) => !k.holds(c),
        }
    }
}

/// Mathematical form of a syntax tree.
pub enum AstModel {
    Leaf(CharModel),
    Concat(Box<AstModel>, Box<AstModel>),
    Alternate(Box<AstModel>, Box<AstModel>),
}

/// A set of characters (kept free of duplicates by the parser) or a class.
/// Two sets are equal when they hold the same members, in any order.
#[derive(Debug, Clone)]
pub enum CharacterPattern {
    Include(Vec<char>),
    Exclude(Vec<char>),
    IncludeClass(CharacterClass),
    ExcludeClass(CharacterClass),
}

/// Whether every member of `a` is a member of `b`.
fn members_within(a: &Vec<char>, b: &Vec<char>) -> (r: bool)
    ensures
        r == a@.to_set().subset_of(b@.to_set()),
{
    let mut i: usize = 0;
    while i < a.len()
        invariant
            i <= a.len(),
            forall|k: int| 0 <= k < i ==> b@.contains(#[trigger] a@[k]),
        decreases a.len() - i,
    {
        if !contains_char(b, a[i]) {
            assert(a@.to_set().contains(a@[i as int]));
            return false;
        }
        i = i + 1;
    }
    assert forall|c: char| a@.to_set().contains(c) implies b@.to_set().contains(c) by {
        let k = choose|k: int| 0 <= k < a@.len() && a@[k] == c;
    }
    true
}

/// Whether `a` and `b` hold the same members.
fn same_members(a: &Vec<char>, b: &Vec<char>) -> (r: bool)
    ensures
        r == (a@.to_set() == b@.to_set()),
{
    let ab = members_within(a, b);
    let ba = members_within(b, a);
    proof {
        if ab && ba {
            assert(a@.to_set() =~= b@.to_set());
        }
    }
    ab && ba
}

impl PartialEq for CharacterPattern {
    fn eq(&self, other: &CharacterPattern) -> (r: bool) {
        match (self, other) {
            (CharacterPattern::Include(a), CharacterPattern::Include(b)) => same_members(a, b),
            (CharacterPattern::Exclude(a), CharacterPattern::Exclude(b)) => same_members(a, b),
            (CharacterPattern::IncludeClass(x), CharacterPattern::IncludeClass(y)) => *x == *y,
            (CharacterPattern::ExcludeClass(x), CharacterPattern::ExcludeClass(y)) => *x == *y,
            _ => false,
        }
    }
}

impl vstd::std_specs::cmp::PartialEqSpecImpl for CharacterPattern {
    open spec fn obeys_eq_spec() -> bool {
        true
    }

    open spec fn eq_spec(&self, other: &CharacterPattern) -> bool {
        match (self, other) {
            (CharacterPattern::Include(a), CharacterPattern::Include(b)) => a@.to_set() == b@.to_set(),
            (CharacterPattern::Exclude(a), CharacterPattern::Exclude(b)) => a@.to_set() == b@.to_set(),
            (CharacterPattern::IncludeClass(x), CharacterPattern::IncludeClass(y)) => x == y,
            (CharacterPattern::ExcludeClass(x), CharacterPattern::ExcludeClass(y)) => x == y,
            _ => false,
        }
    }
}

/// The condition on one input character.
#[derive(Debug, Clone, PartialEq)]
pub enum Character {
    Literal(char),
    Pattern(CharacterPattern),
}

/// Whether `v` holds `c`.
pub fn contains_char(v: &Vec<char>, c: char) -> (r: bool)
    ensures
        r == v@.contains(c),
{
    let mut i: usize = 0;
    while i < v.len()
        invariant
            i <= v.len(),
            forall|k: int| 0 <= k < i ==> v@[k] != c,
        decreases v.len() - i,
    {
        if v[i] == c {
            return true;
        }
        i = i + 1;
    }
    false
}

fn copy_chars(v: &Vec<char>) -> (r: Vec<char>)
    ensures
        r@ == v@,
{
    let mut r: Vec<char> = Vec::new();
    let mut i: usize = 0;
    while i < v.len()
        invariant
            i <= v.len(),
            r@ == v@.take(i as int),
        decreases v.len() - i,
    {
        r.push(v[i]);
        i = i + 1;
        proof {
            assert(r@ =~= v@.take(i as int));
        }
    }
    proof {
        assert(v@.take(v@.len() as int) =~= v@);
    }
    r
}

impl Character {
    pub open spec fn model(self) -> CharModel {
        match self {
            Character::Literal(c) => CharModel::Literal(c),
            Character::Pattern(CharacterPattern::Include(v)) => CharModel::Include(v@),
            Character::Pattern(CharacterPattern::Exclude(v)) => CharModel::Exclude(v@),
            Character::Pattern(CharacterPattern::IncludeClass(k)) => CharModel::IncludeClass(k),
            Character::Pattern(CharacterPattern::ExcludeClass(k)) => CharModel::ExcludeClass(k),
        }
    }

    /// Whether the input character `c` satisfies this condition.
    pub fn matches(&self, c: char) -> (r: bool)
        ensures
            r == self.model().accepts(c),
    {
        match self {
            Character::Literal(l) => *l == c,
            Character::Pattern(CharacterPattern::Include(v)) => contains_char(v, c),
            Character::Pattern(CharacterPattern::Exclude(v)) => !contains_char(v, c),
            Character::Pattern(CharacterPattern::IncludeClass(k)) => k.matches(c),
            Character::Pattern(CharacterPattern::ExcludeClass(k)) => !k.matches(c),
        }
    }

    /// An independent copy with the same model.
    pub fn duplicate(&self) -> (r: Character)
        ensures
            r.model() == self.model(),
    {
        match self {
            Character::Literal(l) => Character::Literal(*l),
            Character::Pattern(CharacterPattern::Include(v)) => Character::Pattern(
                CharacterPattern::Include(copy_chars(v)),
            ),
            Character::Pattern(CharacterPattern::Exclude(v)) => Character::Pattern(
                CharacterPattern::Exclude(copy_chars(v)),
            ),
            Character::Pattern(CharacterPattern::IncludeClass(k)) => Character::Pattern(
                CharacterPattern::IncludeClass(*k),
            ),
            Character::Pattern(CharacterPattern::ExcludeClass(k)) => Character::Pattern(
                CharacterPattern::ExcludeClass(*k),
            ),
        }
    }
}

/// A syntax tree of a pattern.
#[derive(Debug, PartialEq)]
pub enum AstNode {
    Character(Character),
    Concat(Box<AstNode>, Box<AstNode>),
    Alternate(Box<AstNode>, Box<AstNode>),
}

/// The words that split into a word of `x` followed by a word of `y`.
pub open spec fn concat_langs(x: Set<Seq<char>>, y: Set<Seq<char>>) -> Set<Seq<char>> {
    Set::new(
        |w: Seq<char>|
            exists|k: int| 0 <= k <= w.len() && #[trigger] x.contains(w.take(k)) && y.contains(w.skip(k)),
    )
}

/// The language of `m`: a leaf holds the one-character words its condition
/// accepts, a concatenation the words that split into a word of each side in
/// order, an alternation the words of either branch.
pub open spec fn lang(m: AstModel) -> Set<Seq<char>>
    decreases m,
{
    match m {
        AstModel::Leaf(c) => Set::new(|w: Seq<char>| w.len() == 1 && c.accepts(w[0])),
        AstModel::Concat(l, r) => concat_langs(lang(*l), lang(*r)),
        AstModel::Alternate(l, r) => lang(*l).union(lang(*r)),
    }
}

/// `w` belongs to the language of `m`.
pub open spec fn in_lang(m: AstModel, w: Seq<char>) -> bool {
    lang(m).contains(w)
}

/// The condition that an escape letter introduces, if it names a class.
pub open spec fn class_escape(c: char) -> Option<CharModel> {
    if c == 'd' {
        Some(CharModel::IncludeClass(CharacterClass::Digit))
    } else if c == 'D' {
        Some(CharModel::ExcludeClass(CharacterClass::Digit))
    } else if c == 's' {
        Some(CharModel::IncludeClass(CharacterClass::Whitespace))
    } else if c == 'S' {
        Some(CharModel::ExcludeClass(CharacterClass::Whitespace))
    } else if c == 'l' {
        Some(CharModel::IncludeClass(CharacterClass::Lowercase))
    } else if c == 'L' {
        Some(CharModel::ExcludeClass(CharacterClass::Lowercase))
    } else if c == 'u' {
        Some(CharModel::IncludeClass(CharacterClass::Uppercase))
    } else if c == 'U' {
        Some(CharModel::ExcludeClass(CharacterClass::Uppercase))
    } else {
        None
    }
}

/// `set` with `c` added, unless it is already a member.
pub open spec fn with_member(set: Seq<char>, c: char) -> Seq<char> {
    if set.contains(c) {
        set
    } else {
        set.push(c)
    }
}

/// The members of the bracket expression opened at `open`, read from `k`
/// on into `set`, and the offset just past its closing `]`.
pub open spec fn bracket_members(p: Seq<char>, open: int, k: int, set: Seq<char>) -> Result<
    (Seq<char>, int),
    Error,
>
    decreases p.len() - k,
{
    if k >= p.len() {
        Err(Error::UnmatchedBracket(open as usize))
    } else if p[k] == ']' {
        Ok((set, k + 1))
    } else if p[k] == '\\' {
        if k + 1 >= p.len() {
            Err(Error::UnexpectedEof(open as usize))
        } else {
            bracket_members(p, open, k + 2, with_member(set, p[k + 1]))
        }
    } else {
        bracket_members(p, open, k + 1, with_member(set, p[k]))
    }
}

/// The single unit (literal, class escape or bracket expression)
/// starting at `i`, and the offset just past it.
pub open spec fn parse_unit(p: Seq<char>, i: int) -> Result<(AstModel, int), Error> {
    let c = p[i];
    if c == '[' {
        if i + 1 >= p.len() {
            Err(Error::UnexpectedEof(i as usize))
        } else {
            let negated = p[i + 1] == '^';
            let start = if negated {
                i + 2
            } else {
                i + 1
            };
            match bracket_members(p, i, start, Seq::empty()) {
                Ok((set, j)) => Ok(
                    (
                        AstModel::Leaf(
                            if negated {
                                CharModel::Exclude(set)
                            } else {
                                CharModel::Include(set)
                            },
                        ),
                        j,
                    ),
                ),
                Err(e) => Err(e),
            }
        }
    } else if c == '\\' {
        if i + 1 >= p.len() {
            Err(Error::UnexpectedEof(i as usize))
        } else {
            match class_escape(p[i + 1]) {
                Some(m) => Ok((AstModel::Leaf(m), i + 2)),
                None => Err(Error::InvalidEscape(i as usize)),
            }
        }
    } else {
        Ok((AstModel::Leaf(CharModel::Literal(c)), i + 1))
    }
}

/// The concatenation of the units from `i` up to the end or to the next `|`,
/// nested to the right, and the offset where it stops.
pub open spec fn parse_sequence(p: Seq<char>, i: int) -> Result<(AstModel, int), Error>
    decreases p.len() - i,
{
    if i < 0 || i >= p.len() {
        Err(Error::UnexpectedEof(i as usize))
    } else {
        match parse_unit(p, i) {
            Err(e) => Err(e),
            Ok((u, j)) => if i < j && j < p.len() && p[j] != '|' {
                match parse_sequence(p, j) {
                    Ok((r, k)) => Ok((AstModel::Concat(Box::new(u), Box::new(r)), k)),
                    Err(e) => Err(e),
                }
            } else {
                Ok((u, j))
            },
        }
    }
}

/// The alternation of the sequences from `i` to the end, split at each `|`
/// and nested to the right: alternation binds looser than concatenation.
pub open spec fn parse_alternation(p: Seq<char>, i: int) -> Result<AstModel, Error>
    decreases p.len() - i,
{
    if i < 0 || i >= p.len() || p[i] == '|' {
        Err(Error::UnexpectedEof(i as usize))
    } else {
        match parse_sequence(p, i) {
            Err(e) => Err(e),
            Ok((l, j)) => if i < j && j < p.len() {
                match parse_alternation(p, j + 1) {
                    Ok(r) => Ok(AstModel::Alternate(Box::new(l), Box::new(r))),
                    Err(e) => Err(e),
                }
            } else {
                Ok(l)
            },
        }
    }
}

/// What a whole pattern parses to.
pub open spec fn parse(p: Seq<char>) -> Result<AstModel, Error> {
    parse_alternation(p, 0)
}

pub open spec fn positioned_model(r: Result<(AstNode, usize), Error>) -> Result<
    (AstModel, int),
    Error,
> {
    match r {
        Ok((a, j)) => Ok((a.model(), j as int)),
        Err(e) => Err(e),
    }
}

pub open spec fn result_model(r: Result<AstNode, Error>) -> Result<AstModel, Error> {
    match r {
        Ok(a) => Ok(a.model()),
        Err(e) => Err(e),
    }
}

proof fn lemma_bracket_advances(p: Seq<char>, open: int, k: int, set: Seq<char>)
    ensures
        bracket_members(p, open, k, set) matches Ok((_, j)) ==> k < j <= p.len(),
    decreases p.len() - k,
{
    if k < p.len() && p[k] != ']' {
        if p[k] == '\\' {
            if k + 1 < p.len() {
                lemma_bracket_advances(p, open, k + 2, with_member(set, p[k + 1]));
            }
        } else {
            lemma_bracket_advances(p, open, k + 1, with_member(set, p[k]));
        }
    }
}

pub proof fn lemma_unit_advances(p: Seq<char>, i: int)
    requires
        0 <= i < p.len(),
    ensures
        parse_unit(p, i) matches Ok((_, j)) ==> i < j <= p.len(),
{
    if p[i] == '[' && i + 1 < p.len() {
        let start = if p[i + 1] == '^' {
            i + 2
        } else {
            i + 1
        };
        lemma_bracket_advances(p, i, start, Seq::empty());
    }
}

pub proof fn lemma_sequence_stops(p: Seq<char>, i: int)
    requires
        0 <= i < p.len(),
    ensures
        parse_sequence(p, i) matches Ok((_, j)) ==> i < j <= p.len() && (j < p.len() ==> p[j]
            == '|'),
    decreases p.len() - i,
{
    lemma_unit_advances(p, i);
    if let Ok((_, j)) = parse_unit(p, i) {
        if j < p.len() && p[j] != '|' {
            lemma_sequence_stops(p, j);
        }
    }
}

/// Adds `c` to `set` unless it is already there.
fn add_member(set: &mut Vec<char>, c: char)
    ensures
        final(set)@ == with_member(old(set)@, c),
{
    if !contains_char(set, c) {
        set.push(c);
    }
}

/// Reads the members of the bracket expression opened at `open` from `start` on.
fn scan_bracket(p: &Vec<char>, open: usize, start: usize) -> (r: Result<(Vec<char>, usize), Error>)
    requires
        start <= p.len(),
    ensures
        match (r, bracket_members(p@, open as int, start as int, Seq::empty())) {
            (Ok((v, j)), Ok((s, k))) => v@ == s && j == k,
            (Err(e), Err(f)) => e == f,
            _ => false,
        },
{
    let mut set: Vec<char> = Vec::new();
    let mut k: usize = start;
    while k < p.len()
        invariant
            k <= p.len(),
            bracket_members(p@, open as int, k as int, set@) == bracket_members(
                p@,
                open as int,
                start as int,
                Seq::empty(),
            ),
        decreases p.len() - k,
    {
        let c = p[k];
        if c == ']' {
            return Ok((set, k + 1));
        } else if c == '\\' {
            if k + 1 >= p.len() {
                return Err(Error::UnexpectedEof(open));
            }
            add_member(&mut set, p[k + 1]);
            k = k + 2;
        } else {
            add_member(&mut set, c);
            k = k + 1;
        }
    }
    Err(Error::UnmatchedBracket(open))
}

/// The class condition that the escape letter `c` introduces, if any.
fn class_of_escape(c: char) -> (r: Option<Character>)
    ensures
        match (r, class_escape(c)) {
            (Some(x), Some(m)) => x.model() == m,
            (None, None) => true,
            _ => false,
        },
{
    let (included, class) = if c == 'd' {
        (true, CharacterClass::Digit)
    } else if c == 'D' {
        (false, CharacterClass::Digit)
    } else if c == 's' {
        (true, CharacterClass::Whitespace)
    } else if c == 'S' {
        (false, CharacterClass::Whitespace)
    } else if c == 'l' {
        (true, CharacterClass::Lowercase)
    } else if c == 'L' {
        (false, CharacterClass::Lowercase)
    } else if c == 'u' {
        (true, CharacterClass::Uppercase)
    } else if c == 'U' {
        (false, CharacterClass::Uppercase)
    } else {
        return None;
    };
    if included {
        Some(Character::Pattern(CharacterPattern::IncludeClass(class)))
    } else {
        Some(Character::Pattern(CharacterPattern::ExcludeClass(class)))
    }
}

/// The characters of `s`, in order.
pub fn chars_of(s: &str) -> (r: Vec<char>)
    ensures
        r@ == s@,
{
    let n = s.unicode_len();
    let mut r: Vec<char> = Vec::new();
    let mut i: usize = 0;
    while i < n
        invariant
            n == s@.len(),
            i <= n,
            r@ == s@.take(i as int),
        decreases n - i,
    {
        r.push(s.get_char(i));
        i = i + 1;
        proof {
            assert(r@ =~= s@.take(i as int));
        }
    }
    proof {
        assert(s@.take(n as int) =~= s@);
    }
    r
}

impl AstNode {
    pub open spec fn model(self) -> AstModel
        decreases self,
    {
        match self {
            AstNode::Character(c) => AstModel::Leaf(c.model()),
            AstNode::Concat(l, r) => AstModel::Concat(Box::new((*l).model()), Box::new((*r).model())),
            AstNode::Alternate(l, r) => AstModel::Alternate(
                Box::new((*l).model()),
                Box::new((*r).model()),
            ),
        }
    }

    /// A leaf that matches exactly `character`.
    pub fn literal(character: char) -> (r: Self)
        ensures
            r.model() == AstModel::Leaf(CharModel::Literal(character)),
    {
        AstNode::Character(Character::Literal(character))
    }

    /// A leaf that matches any member of `pattern`.
    pub fn character_pattern_inclusive(pattern: Vec<char>) -> (r: Self)
        ensures
            r.model() == AstModel::Leaf(CharModel::Include(pattern@)),
    {
        AstNode::Character(Character::Pattern(CharacterPattern::Include(pattern)))
    }

    /// A leaf that matches any character outside `pattern`.
    pub fn character_pattern_exclusive(pattern: Vec<char>) -> (r: Self)
        ensures
            r.model() == AstModel::Leaf(CharModel::Exclude(pattern@)),
    {
        AstNode::Character(Character::Pattern(CharacterPattern::Exclude(pattern)))
    }

    /// `self` followed by `rhs`.
    pub fn concat(self, rhs: Self) -> (r: Self)
        ensures
            r.model() == AstModel::Concat(Box::new(self.model()), Box::new(rhs.model())),
    {
        AstNode::Concat(Box::new(self), Box::new(rhs))
    }

    /// A choice between `self` and `rhs`.
    pub fn alternate(self, rhs: Self) -> (r: Self)
        ensures
            r.model() == AstModel::Alternate(Box::new(self.model()), Box::new(rhs.model())),
    {
        AstNode::Alternate(Box::new(self), Box::new(rhs))
    }

    fn parse_unit(p: &Vec<char>, i: usize) -> (r: Result<(Self, usize), Error>)
        requires
            i < p.len(),
        ensures
            positioned_model(r) == parse_unit(p@, i as int),
    {
        let c = p[i];
        if c == '[' {
            if i + 1 >= p.len() {
                return Err(Error::UnexpectedEof(i));
            }
            let negated = p[i + 1] == '^';
            let start = if negated {
                i + 2
            } else {
                i + 1
            };
            match scan_bracket(p, i, start) {
                Ok((set, j)) => {
                    if negated {
                        Ok((Self::character_pattern_exclusive(set), j))
                    } else {
                        Ok((Self::character_pattern_inclusive(set), j))
                    }
                },
                Err(e) => Err(e),
            }
        } else if c == '\\' {
            if i + 1 >= p.len() {
                return Err(Error::UnexpectedEof(i));
            }
            match class_of_escape(p[i + 1]) {
                Some(x) => Ok((AstNode::Character(x), i + 2)),
                None => Err(Error::InvalidEscape(i)),
            }
        } else {
            Ok((Self::literal(c), i + 1))
        }
    }

    fn parse_sequence(p: &Vec<char>, i: usize) -> (r: Result<(Self, usize), Error>)
        requires
            i < p.len(),
        ensures
            positioned_model(r) == parse_sequence(p@, i as int),
        decreases p.len() - i,
    {
        proof {
            lemma_unit_advances(p@, i as int);
        }
        let (u, j) = match Self::parse_unit(p, i) {
            Ok(x) => x,
            Err(e) => return Err(e),
        };
        if j < p.len() && p[j] != '|' {
            match Self::parse_sequence(p, j) {
                Ok((r, k)) => Ok((u.concat(r), k)),
                Err(e) => Err(e),
            }
        } else {
            Ok((u, j))
        }
    }

    /// Parses the alternation that starts at `index` and runs to the end of `pattern`.
    fn regex_to_ast(pattern: &Vec<char>, index: usize) -> (r: Result<Self, Error>)
        requires
            index <= pattern.len(),
        ensures
            result_model(r) == parse_alternation(pattern@, index as int),
        decreases pattern.len() - index,
    {
        if index >= pattern.len() || pattern[index] == '|' {
            return Err(Error::UnexpectedEof(index));
        }
        proof {
            lemma_sequence_stops(pattern@, index as int);
        }
        let (left, j) = match Self::parse_sequence(pattern, index) {
            Ok(x) => x,
            Err(e) => return Err(e),
        };
        if j < pattern.len() {
            match Self::regex_to_ast(pattern, j + 1) {
                Ok(right) => Ok(left.alternate(right)),
                Err(e) => Err(e),
            }
        } else {
            Ok(left)
        }
    }

    /// Parses a whole pattern.
    pub fn from_regex(pattern: &str) -> (r: Result<Self, Error>)
        ensures
            result_model(r) == parse(pattern@),
    {
        let chars = chars_of(pattern);
        Self::regex_to_ast(&chars, 0)
    }
}

} // verus!
