//! Characters and runs of characters: the vocabulary in which the field
//! grammars are written.
//!
//! Text is handled as a sequence of Unicode scalar values, which is the
//! view of `str` and `String`.
use vstd::prelude::*;

verus! {

/// The classes of characters that the field grammars tell apart.
#[derive(Clone, Copy, Debug, PartialEq, Eq)]
pub enum CharClass {
    /// One of the ten ASCII decimal digits.
    Digit,
    /// An ASCII decimal digit or a full stop.
    Numeric,
    /// A character with the Unicode property `White_Space`.
    Space,
}

/// Whether `c` is one of the ten ASCII decimal digits.
pub open spec fn spec_is_digit(c: char) -> bool {
    '0' <= c && c <= '9'
}

/// The number that the digit `c` stands for.
pub open spec fn digit_value(c: char) -> nat
    recommends
        spec_is_digit(c),
{
    (c as int - '0' as int) as nat
}

/// Whether `c` has the Unicode property `White_Space`.
pub open spec fn spec_is_space(c: char) -> bool {
    let n = c as u32;
    ||| 0x09 <= n <= 0x0d
    ||| n == 0x20
    ||| n == 0x85
    ||| n == 0xa0
    ||| n == 0x1680
    ||| 0x2000 <= n <= 0x200a
    ||| n == 0x2028
    ||| n == 0x2029
    ||| n == 0x202f
    ||| n == 0x205f
    ||| n == 0x3000
}

/// The lower-case form of an ASCII letter; any other character unchanged.
pub open spec fn spec_ascii_lower(c: char) -> char {
    if 'A' <= c && c <= 'Z' {
        ((c as u32 + 32) as u32) as char
    } else {
        c
    }
}

impl CharClass {
    /// Whether `c` belongs to the class.
    pub open spec fn spec_holds(self, c: char) -> bool {
        match self {
            CharClass::Digit => spec_is_digit(c),
            CharClass::Numeric => spec_is_digit(c) || c == '.',
            CharClass::Space => spec_is_space(c),
        }
    }

    /// Tests `c` for membership in the class.
    #[verifier::when_used_as_spec(spec_holds)]
    pub fn holds(self, c: char) -> (r: bool)
        ensures
            r == self.spec_holds(c),
    {
        match self {
            CharClass::Digit => is_digit(c),
            CharClass::Numeric => is_digit(c) || c == '.',
            CharClass::Space => is_space(c),
        }
    }
}

/// Tests a character for being an ASCII decimal digit.
#[verifier::when_used_as_spec(spec_is_digit)]
pub fn is_digit(c: char) -> (r: bool)
    ensures
        r == spec_is_digit(c),
{
    '0' <= c && c <= '9'
}

/// The number that an ASCII decimal digit stands for.
pub fn digit_of(c: char) -> (d: u8)
    requires
        spec_is_digit(c),
    ensures
        d as nat == digit_value(c),
        d <= 9,
{
    (c as u8) - 48u8
}

/// Tests a character for the Unicode property `White_Space`.
#[verifier::when_used_as_spec(spec_is_space)]
pub fn is_space(c: char) -> (r: bool)
    ensures
        r == spec_is_space(c),
{
    let n: u32 = c as u32;
    (0x09 <= n && n <= 0x0d) || n == 0x20 || n == 0x85 || n == 0xa0 || n == 0x1680 || (0x2000 <= n
        && n <= 0x200a) || n == 0x2028 || n == 0x2029 || n == 0x202f || n == 0x205f || n == 0x3000
}

/// Turns an ASCII capital letter into its small letter.
#[verifier::when_used_as_spec(spec_ascii_lower)]
pub fn ascii_lower(c: char) -> (r: char)
    ensures
        r == spec_ascii_lower(c),
{
    if 'A' <= c && c <= 'Z' {
        match c {
            'A' => 'a',
            'B' => 'b',
            'C' => 'c',
            'D' => 'd',
            'E' => 'e',
            'F' => 'f',
            'G' => 'g',
            'H' => 'h',
            'I' => 'i',
            'J' => 'j',
            'K' => 'k',
            'L' => 'l',
            'M' => 'm',
            'N' => 'n',
            'O' => 'o',
            'P' => 'p',
            'Q' => 'q',
            'R' => 'r',
            'S' => 's',
            'T' => 't',
            'U' => 'u',
            'V' => 'v',
            'W' => 'w',
            'X' => 'x',
            'Y' => 'y',
            _ => 'z',
        }
    } else {
        c
    }
}

/// Where the run of `class` characters that begins at `from` ends: the
/// index of the first character at or after `from` that is outside the
/// class, or the length of `s` if there is none.
pub open spec fn run_end(s: Seq<char>, from: int, class: CharClass) -> int
    decreases s.len() - from,
{
    if 0 <= from < s.len() && class.spec_holds(s[from]) {
        run_end(s, from + 1, class)
    } else {
        from
    }
}

/// Where the run of `class` characters that stops just before `to`
/// begins.
pub open spec fn run_start(s: Seq<char>, to: int, class: CharClass) -> int
    decreases to,
{
    if 0 < to <= s.len() && class.spec_holds(s[to - 1]) {
        run_start(s, to - 1, class)
    } else {
        to
    }
}

/// Whether every character of `s` belongs to `class`.
pub open spec fn all_in(s: Seq<char>, class: CharClass) -> bool {
    forall|i: int| 0 <= i < s.len() ==> class.spec_holds(#[trigger] s[i])
}

/// `s` without the white space at its two ends.
pub open spec fn spec_trim(s: Seq<char>) -> Seq<char> {
    let first = run_end(s, 0, CharClass::Space);
    let last = run_start(s, s.len() as int, CharClass::Space);
    if first < last {
        s.subrange(first, last)
    } else {
        Seq::empty()
    }
}

/// A run ends inside the text, covers only characters of its class, and
/// stops at the first character outside it.
pub proof fn lemma_run_end(s: Seq<char>, from: int, class: CharClass)
    requires
        0 <= from <= s.len(),
    ensures
        from <= run_end(s, from, class) <= s.len(),
        forall|i: int| from <= i < run_end(s, from, class) ==> class.spec_holds(#[trigger] s[i]),
        run_end(s, from, class) < s.len() ==> !class.spec_holds(s[run_end(s, from, class)]),
    decreases s.len() - from,
{
    if from < s.len() && class.spec_holds(s[from]) {
        lemma_run_end(s, from + 1, class);
    }
}

/// The end of a run is the only index up to which every character from
/// `from` on is in the class, with none of the class at the index itself.
pub proof fn lemma_run_end_unique(s: Seq<char>, from: int, class: CharClass, end: int)
    requires
        0 <= from <= end <= s.len(),
        forall|i: int| from <= i < end ==> class.spec_holds(#[trigger] s[i]),
        end < s.len() ==> !class.spec_holds(s[end]),
    ensures
        run_end(s, from, class) == end,
    decreases end - from,
{
    if from < end {
        assert(class.spec_holds(s[from]));
        lemma_run_end_unique(s, from + 1, class, end);
    }
}

/// The start of a run that is read backwards is the only index from which
/// on every character before `to` is in the class, with none of the class
/// just before it.
pub proof fn lemma_run_start_unique(s: Seq<char>, to: int, class: CharClass, start: int)
    requires
        0 <= start <= to <= s.len(),
        forall|i: int| start <= i < to ==> class.spec_holds(#[trigger] s[i]),
        0 < start ==> !class.spec_holds(s[start - 1]),
    ensures
        run_start(s, to, class) == start,
    decreases to - start,
{
    if start < to {
        assert(class.spec_holds(s[to - 1]));
        lemma_run_start_unique(s, to - 1, class, start);
    }
}

/// A run that is followed by a character outside its class, or by
/// nothing, ends where it ends, whatever stands before it.
pub proof fn lemma_run_end_within(
    before: Seq<char>,
    run: Seq<char>,
    rest: Seq<char>,
    class: CharClass,
)
    requires
        all_in(run, class),
        rest.len() > 0 ==> !class.spec_holds(rest[0]),
    ensures
        run_end(before + run + rest, before.len() as int, class) == before.len() + run.len(),
{
    let s = before + run + rest;
    let from = before.len() as int;
    let end = from + run.len();
    assert forall|i: int| from <= i < end implies class.spec_holds(#[trigger] s[i]) by {
        assert(s[i] == run[i - from]);
    }
    if rest.len() > 0 {
        assert(s[end] == rest[0]);
    }
    lemma_run_end_unique(s, from, class, end);
}

/// White space around a text that neither begins nor ends with white
/// space is what trimming removes.
pub proof fn lemma_trim_padded(left: Seq<char>, core: Seq<char>, right: Seq<char>)
    requires
        all_in(left, CharClass::Space),
        all_in(right, CharClass::Space),
        core.len() > 0,
        !spec_is_space(core[0]),
        !spec_is_space(core.last()),
    ensures
        spec_trim(left + core + right) == core,
{
    let s = left + core + right;
    let first = left.len() as int;
    let last = first + core.len();
    assert forall|i: int| 0 <= i < first implies CharClass::Space.spec_holds(#[trigger] s[i]) by {
        assert(s[i] == left[i]);
    }
    assert(s[first] == core[0]);
    lemma_run_end_unique(s, 0, CharClass::Space, first);
    assert forall|i: int| last <= i < s.len() implies CharClass::Space.spec_holds(
        #[trigger] s[i],
    ) by {
        assert(s[i] == right[i - last]);
    }
    assert(s[last - 1] == core.last());
    lemma_run_start_unique(s, s.len() as int, CharClass::Space, last);
    assert(s.subrange(first, last) == core);
}

/// The characters of a string slice, one element for each.
pub fn chars_of(s: &str) -> (v: Vec<char>)
    ensures
        v@ == s@,
{
    broadcast use vstd::string::group_string_axioms;

    let mut v: Vec<char> = Vec::new();
    for c in it: s.chars()
        invariant
            it.seq() == s@,
            v@ == s@.take(it.index()),
    {
        v.push(c);
    }
    assert(s@.take(s@.len() as int) == s@);
    v
}

/// A copy of the characters of `v` from index `from` up to, not
/// including, index `to`.
pub fn slice(v: &Vec<char>, from: usize, to: usize) -> (r: Vec<char>)
    requires
        from <= to <= v.len(),
    ensures
        r@ == v@.subrange(from as int, to as int),
{
    let mut r: Vec<char> = Vec::new();
    let mut i: usize = from;
    while i < to
        invariant
            from <= i <= to <= v.len(),
            r@ == v@.subrange(from as int, i as int),
        decreases to - i,
    {
        r.push(v[i]);
        i += 1;
    }
    r
}

/// The characters of `a` followed by those of `b`.
pub fn join(a: &Vec<char>, b: &Vec<char>) -> (r: Vec<char>)
    ensures
        r@ == a@ + b@,
{
    let mut r: Vec<char> = slice(a, 0, a.len());
    assert(r@ == a@);
    let mut i: usize = 0;
    while i < b.len()
        invariant
            i <= b.len(),
            r@ == a@ + b@.take(i as int),
        decreases b.len() - i,
    {
        r.push(b[i]);
        i += 1;
    }
    assert(b@.take(b.len() as int) == b@);
    r
}

/// Finds the end of the run of `class` characters that begins at `from`.
pub fn scan_run(v: &Vec<char>, from: usize, class: CharClass) -> (end: usize)
    requires
        from <= v.len(),
    ensures
        end == run_end(v@, from as int, class),
        from <= end <= v.len(),
{
    let mut i: usize = from;
    while i < v.len() && class.holds(v[i])
        invariant
            from <= i <= v.len(),
            run_end(v@, from as int, class) == run_end(v@, i as int, class),
        decreases v.len() - i,
    {
        i += 1;
    }
    i
}

/// Finds the start of the run of `class` characters that stops just
/// before `to`.
pub fn scan_run_back(v: &Vec<char>, to: usize, class: CharClass) -> (start: usize)
    requires
        to <= v.len(),
    ensures
        start == run_start(v@, to as int, class),
        start <= to,
{
    let mut i: usize = to;
    while i > 0 && class.holds(v[i - 1])
        invariant
            i <= to <= v.len(),
            run_start(v@, to as int, class) == run_start(v@, i as int, class),
        decreases i,
    {
        i -= 1;
    }
    i
}

/// Removes the white space at the two ends of `v`.
pub fn trim(v: &Vec<char>) -> (r: Vec<char>)
    ensures
        r@ == spec_trim(v@),
{
    let first = scan_run(v, 0, CharClass::Space);
    let last = scan_run_back(v, v.len(), CharClass::Space);
    if first < last {
        slice(v, first, last)
    } else {
        Vec::new()
    }
}

/// Whether `v` reads as `word` when ASCII capitals count as small
/// letters.
pub open spec fn spec_reads_as(s: Seq<char>, word: Seq<char>) -> bool {
    s.map_values(|c: char| spec_ascii_lower(c)) == word
}

/// Compares `v` with `word`, ASCII capitals in `v` counting as small
/// letters.
pub fn reads_as(v: &Vec<char>, word: &Vec<char>) -> (r: bool)
    ensures
        r == spec_reads_as(v@, word@),
{
    if v.len() != word.len() {
        return false;
    }
    let ghost lowered = v@.map_values(|c: char| spec_ascii_lower(c));
    let mut i: usize = 0;
    while i < v.len()
        invariant
            i <= v.len(),
            v.len() == word.len(),
            lowered == v@.map_values(|c: char| spec_ascii_lower(c)),
            forall|j: int| 0 <= j < i ==> lowered[j] == word@[j],
        decreases v.len() - i,
    {
        if ascii_lower(v[i]) != word[i] {
            assert(lowered[i as int] != word@[i as int]);
            return false;
        }
        i += 1;
    }
    assert(lowered =~= word@);
    true
}

/// Whether two texts hold the same characters.
pub fn same_text(a: &Vec<char>, b: &Vec<char>) -> (r: bool)
    ensures
        r == (a@ == b@),
{
    if a.len() != b.len() {
        return false;
    }
    let mut i: usize = 0;
    while i < a.len()
        invariant
            i <= a.len(),
            a.len() == b.len(),
            forall|j: int| 0 <= j < i ==> a@[j] == b@[j],
        decreases a.len() - i,
    {
        if a[i] != b[i] {
            return false;
        }
        i += 1;
    }
    assert(a@ =~= b@);
    true
}

} // verus!
