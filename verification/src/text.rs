//! Character-level text operations: searching, splitting, trimming and ordering.
//!
//! Text is modelled as a sequence of characters (`Seq<char>`), which is also the
//! view of `str` and `String`.

use vstd::prelude::*;
use vstd::slice::*;

verus! {

/// The texts that a sequence of strings holds.
pub open spec fn texts(words: Seq<String>) -> Seq<Seq<char>> {
    words.map_values(|word: String| word@)
}

/// Whether `c` is white space: one of the code points that carry the Unicode
/// `White_Space` property.
pub open spec fn is_space(c: char) -> bool {
    let u = c as int;
    ||| 0x09 <= u <= 0x0D
    ||| u == 0x20
    ||| u == 0x85
    ||| u == 0xA0
    ||| u == 0x1680
    ||| 0x2000 <= u <= 0x200A
    ||| u == 0x2028
    ||| u == 0x2029
    ||| u == 0x202F
    ||| u == 0x205F
    ||| u == 0x3000
}

/// The least position at or after `from` that holds `c`, or the end of `s` if
/// there is none.
pub open spec fn find(s: Seq<char>, from: int, c: char) -> int
    decreases s.len() - from,
{
    if 0 <= from < s.len() && s[from] != c {
        find(s, from + 1, c)
    } else {
        from
    }
}

/// The pieces of `s`, starting at `from`, that lie between occurrences of `sep`.
pub open spec fn split_from(s: Seq<char>, from: int, sep: char) -> Seq<Seq<char>>
    decreases s.len() - from,
{
    let at = find(s, from, sep);
    if from <= at < s.len() {
        seq![s.subrange(from, at)] + split_from(s, at + 1, sep)
    } else {
        seq![s.subrange(from, s.len() as int)]
    }
}

/// The pieces of `s` that lie between occurrences of `sep`. There is always at
/// least one piece; a text that ends in `sep` has an empty last piece.
pub open spec fn split(s: Seq<char>, sep: char) -> Seq<Seq<char>> {
    split_from(s, 0, sep)
}

/// The pieces put together again, with `sep` between each two.
pub open spec fn join(pieces: Seq<Seq<char>>, sep: char) -> Seq<char>
    decreases pieces.len(),
{
    if pieces.len() == 0 {
        Seq::empty()
    } else if pieces.len() == 1 {
        pieces[0]
    } else {
        pieces[0] + seq![sep] + join(pieces.drop_first(), sep)
    }
}

/// The least position at or after `from` that holds no white space, or the end
/// of `s`.
pub open spec fn skip_spaces(s: Seq<char>, from: int) -> int
    decreases s.len() - from,
{
    if 0 <= from < s.len() && is_space(s[from]) {
        skip_spaces(s, from + 1)
    } else {
        from
    }
}

/// The greatest end `to' <= to` such that `s[from..to')` does not end in white
/// space.
pub open spec fn drop_spaces(s: Seq<char>, from: int, to: int) -> int
    decreases to - from,
{
    if from < to <= s.len() && is_space(s[to - 1]) {
        drop_spaces(s, from, to - 1)
    } else {
        to
    }
}

/// `s` without its leading and trailing white space.
pub open spec fn trim(s: Seq<char>) -> Seq<char> {
    let from = skip_spaces(s, 0);
    s.subrange(from, drop_spaces(s, from, s.len() as int))
}

/// The length of the longest common prefix of `a` and `b`, counted from `from`.
pub open spec fn diverge(a: Seq<char>, b: Seq<char>, from: int) -> int
    decreases a.len() - from,
{
    if 0 <= from < a.len() && from < b.len() && a[from] == b[from] {
        diverge(a, b, from + 1)
    } else {
        from
    }
}

/// Strict lexicographic order by code point: at the first position where the
/// two differ, `a` has ended or holds the smaller character.
pub open spec fn precedes(a: Seq<char>, b: Seq<char>) -> bool {
    let at = diverge(a, b, 0);
    at < b.len() && (at == a.len() || (a[at] as int) < (b[at] as int))
}

/// How one text stands to another in lexicographic order.
#[derive(Clone, Copy, Debug, PartialEq, Eq, Structural)]
pub enum Order {
    Before,
    Same,
    After,
}

/// What `find` returns, stated without recursion.
pub proof fn lemma_find(s: Seq<char>, from: int, c: char)
    requires
        0 <= from <= s.len(),
    ensures
        from <= find(s, from, c) <= s.len(),
        find(s, from, c) < s.len() ==> s[find(s, from, c)] == c,
        forall|j: int| from <= j < find(s, from, c) ==> s[j] != c,
    decreases s.len() - from,
{
    if from < s.len() && s[from] != c {
        lemma_find(s, from + 1, c);
    }
}

/// A position that holds `c`, with no `c` between `from` and it, is what `find`
/// returns; so is the end of `s` if no `c` comes after `from`.
pub proof fn lemma_find_at(s: Seq<char>, from: int, c: char, at: int)
    requires
        0 <= from <= at <= s.len(),
        forall|j: int| from <= j < at ==> s[j] != c,
        at < s.len() ==> s[at] == c,
    ensures
        find(s, from, c) == at,
    decreases at - from,
{
    if from < at {
        lemma_find_at(s, from + 1, c, at);
    }
}

/// Searching the rest of a text is searching the text from where the rest
/// begins.
pub proof fn lemma_find_in_rest(s: Seq<char>, start: int, from: int, c: char)
    requires
        0 <= start <= from <= s.len(),
    ensures
        find(s.subrange(start, s.len() as int), from - start, c) + start == find(s, from, c),
{
    let rest = s.subrange(start, s.len() as int);
    lemma_find(s, from, c);
    let at = find(s, from, c);
    assert forall|j: int| from - start <= j < at - start implies rest[j] != c by {
        assert(rest[j] == s[j + start]);
    }
    lemma_find_at(rest, from - start, c, at - start);
}

/// Splitting the rest of a text is splitting the text from where the rest
/// begins.
pub proof fn lemma_split_in_rest(s: Seq<char>, start: int, from: int, sep: char)
    requires
        0 <= start <= from <= s.len(),
    ensures
        split_from(s.subrange(start, s.len() as int), from - start, sep) == split_from(s, from, sep),
    decreases s.len() - from,
{
    let rest = s.subrange(start, s.len() as int);
    lemma_find_in_rest(s, start, from, sep);
    lemma_find(s, from, sep);
    let at = find(s, from, sep);
    if at < s.len() {
        lemma_split_in_rest(s, start, at + 1, sep);
        assert(rest.subrange(from - start, at - start) =~= s.subrange(from, at));
    } else {
        assert(rest.subrange(from - start, rest.len() as int) =~= s.subrange(from, s.len() as int));
    }
}

/// Pieces that hold no separator are what splitting their join gives back.
pub proof fn lemma_split_join(pieces: Seq<Seq<char>>, sep: char)
    requires
        pieces.len() >= 1,
        forall|i: int, j: int|
            0 <= i < pieces.len() && 0 <= j < pieces[i].len() ==> #[trigger] pieces[i][j] != sep,
    ensures
        split(join(pieces, sep), sep) == pieces,
    decreases pieces.len(),
{
    let s = join(pieces, sep);
    let head = pieces[0];
    if pieces.len() == 1 {
        lemma_find_at(s, 0, sep, s.len() as int);
        assert(s.subrange(0, s.len() as int) =~= s);
        assert(split(s, sep) =~= pieces);
    } else {
        let rest = pieces.drop_first();
        assert forall|i: int, j: int| 0 <= i < rest.len() && 0 <= j < rest[i].len() implies #[trigger] rest[i][j]
            != sep by {
            assert(rest[i][j] == pieces[i + 1][j]);
        }
        lemma_split_join(rest, sep);
        let tail = join(rest, sep);
        assert(s == head + seq![sep] + tail);
        assert forall|j: int| 0 <= j < head.len() implies s[j] != sep by {
            assert(s[j] == pieces[0][j]);
        }
        let next = head.len() as int + 1;
        lemma_find_at(s, 0, sep, head.len() as int);
        lemma_split_in_rest(s, next, next, sep);
        assert(s.subrange(next, s.len() as int) =~= tail);
        assert(s.subrange(0, head.len() as int) =~= head);
        assert(split(s, sep) =~= pieces);
    }
}

/// Splitting loses nothing and cuts at every separator: no piece holds `sep`,
/// and the pieces joined by `sep` are the text from `from` on.
pub proof fn lemma_split_from(s: Seq<char>, from: int, sep: char)
    requires
        0 <= from <= s.len(),
    ensures
        split_from(s, from, sep).len() >= 1,
        forall|i: int, j: int|
            0 <= i < split_from(s, from, sep).len() && 0 <= j < split_from(s, from, sep)[i].len()
                ==> #[trigger] split_from(s, from, sep)[i][j] != sep,
        join(split_from(s, from, sep), sep) == s.subrange(from, s.len() as int),
    decreases s.len() - from,
{
    lemma_find(s, from, sep);
    let at = find(s, from, sep);
    let pieces = split_from(s, from, sep);
    if at < s.len() {
        lemma_split_from(s, at + 1, sep);
        let rest = split_from(s, at + 1, sep);
        assert(pieces.drop_first() =~= rest);
        assert(pieces[0] == s.subrange(from, at));
        assert forall|i: int, j: int| 0 <= i < pieces.len() && 0 <= j < pieces[i].len() implies #[trigger] pieces[i][j]
            != sep by {
            if i > 0 {
                assert(pieces[i][j] == rest[i - 1][j]);
            }
        }
        assert(join(pieces, sep) =~= s.subrange(from, s.len() as int));
    }
}

/// Splitting loses nothing and cuts at every separator: no piece holds `sep`,
/// and the pieces joined by `sep` are the text.
pub proof fn lemma_split(s: Seq<char>, sep: char)
    ensures
        split(s, sep).len() >= 1,
        forall|i: int, j: int|
            0 <= i < split(s, sep).len() && 0 <= j < split(s, sep)[i].len() ==> #[trigger] split(
                s,
                sep,
            )[i][j] != sep,
        join(split(s, sep), sep) == s,
{
    lemma_split_from(s, 0, sep);
    assert(s.subrange(0, s.len() as int) =~= s);
}

/// What `skip_spaces` returns, stated without recursion.
pub proof fn lemma_skip_spaces(s: Seq<char>, from: int)
    requires
        0 <= from <= s.len(),
    ensures
        from <= skip_spaces(s, from) <= s.len(),
        skip_spaces(s, from) < s.len() ==> !is_space(s[skip_spaces(s, from)]),
        forall|j: int| from <= j < skip_spaces(s, from) ==> is_space(s[j]),
    decreases s.len() - from,
{
    if from < s.len() && is_space(s[from]) {
        lemma_skip_spaces(s, from + 1);
    }
}

/// What `drop_spaces` returns, stated without recursion.
pub proof fn lemma_drop_spaces(s: Seq<char>, from: int, to: int)
    requires
        0 <= from <= to <= s.len(),
    ensures
        from <= drop_spaces(s, from, to) <= to,
        from < drop_spaces(s, from, to) ==> !is_space(s[drop_spaces(s, from, to) - 1]),
        forall|j: int| drop_spaces(s, from, to) <= j < to ==> is_space(s[j]),
    decreases to - from,
{
    if from < to && is_space(s[to - 1]) {
        lemma_drop_spaces(s, from, to - 1);
    }
}

/// Trimmed text neither begins nor ends with white space, and what was cut off
/// on either side was white space only.
pub proof fn lemma_trim(s: Seq<char>)
    ensures
        trim(s).len() > 0 ==> !is_space(trim(s).first()) && !is_space(trim(s).last()),
        exists|from: int, to: int|
            0 <= from <= to <= s.len() && trim(s) == s.subrange(from, to) && (forall|j: int|
                0 <= j < from ==> is_space(s[j])) && (forall|j: int|
                to <= j < s.len() ==> is_space(s[j])),
{
    let from = skip_spaces(s, 0);
    let to = drop_spaces(s, from, s.len() as int);
    lemma_skip_spaces(s, 0);
    lemma_drop_spaces(s, from, s.len() as int);
    assert(trim(s) == s.subrange(from, to));
}

/// What `diverge` returns, stated without recursion.
pub proof fn lemma_diverge(a: Seq<char>, b: Seq<char>, from: int)
    requires
        0 <= from <= a.len(),
        from <= b.len(),
    ensures
        from <= diverge(a, b, from) <= a.len(),
        diverge(a, b, from) <= b.len(),
        diverge(a, b, from) < a.len() && diverge(a, b, from) < b.len() ==> a[diverge(a, b, from)]
            != b[diverge(a, b, from)],
        forall|j: int| from <= j < diverge(a, b, from) ==> a[j] == b[j],
    decreases a.len() - from,
{
    if from < a.len() && from < b.len() && a[from] == b[from] {
        lemma_diverge(a, b, from + 1);
    }
}

/// Two texts share their first `at` characters and differ at `at` (or one of
/// them ends there): then `at` is where they diverge.
pub proof fn lemma_diverge_at(a: Seq<char>, b: Seq<char>, at: int)
    requires
        0 <= at <= a.len(),
        at <= b.len(),
        forall|j: int| 0 <= j < at ==> a[j] == b[j],
        at < a.len() && at < b.len() ==> a[at] != b[at],
    ensures
        diverge(a, b, 0) == at,
{
    lemma_diverge(a, b, 0);
    let d = diverge(a, b, 0);
    if d < at {
        assert(a[d] == b[d]);
    }
}

/// No text precedes itself.
pub proof fn lemma_precedes_irreflexive(a: Seq<char>)
    ensures
        !precedes(a, a),
{
    lemma_diverge_at(a, a, a.len() as int);
}

/// Of two different texts exactly one precedes the other.
pub proof fn lemma_precedes_total(a: Seq<char>, b: Seq<char>)
    ensures
        a == b || precedes(a, b) || precedes(b, a),
        !(precedes(a, b) && precedes(b, a)),
        a == b ==> !precedes(a, b),
{
    lemma_diverge(a, b, 0);
    let d = diverge(a, b, 0);
    lemma_diverge_at(b, a, d);
    if d == a.len() && d == b.len() {
        assert(a =~= b);
    } else if d < a.len() && d < b.len() {
        assert(a[d] as int != b[d] as int);
    }
    if a == b {
        lemma_precedes_irreflexive(a);
    }
}

/// The order is transitive.
pub proof fn lemma_precedes_transitive(a: Seq<char>, b: Seq<char>, c: Seq<char>)
    requires
        precedes(a, b),
        precedes(b, c),
    ensures
        precedes(a, c),
{
    lemma_diverge(a, b, 0);
    lemma_diverge(b, c, 0);
    let x = diverge(a, b, 0);
    let y = diverge(b, c, 0);
    let at = if x <= y { x } else { y };
    assert forall|j: int| 0 <= j < at implies a[j] == c[j] by {
        assert(a[j] == b[j]);
        assert(b[j] == c[j]);
    }
    if x < y {
        assert(b[x] == c[x]);
    } else if y < x {
        assert(a[y] == b[y]);
    }
    lemma_diverge_at(a, c, at);
}

/// Tells whether `c` is white space.
pub fn is_space_char(c: char) -> (b: bool)
    ensures
        b == is_space(c),
{
    let u: u32 = c as u32;
    (0x09 <= u && u <= 0x0D) || u == 0x20 || u == 0x85 || u == 0xA0 || u == 0x1680 || (0x2000 <= u
        && u <= 0x200A) || u == 0x2028 || u == 0x2029 || u == 0x202F || u == 0x205F || u == 0x3000
}

/// Decodes a string slice into its characters.
pub fn chars_of(s: &str) -> (glyphs: Vec<char>)
    ensures
        glyphs@ == s@,
{
    let mut glyphs: Vec<char> = Vec::new();
    for c in it: s.chars()
        invariant
            it.seq() == s@,
            glyphs@ == it.seq().take(it.index() as int),
    {
        glyphs.push(c);
    }
    glyphs
}

/// `String::push` appends one character to the end of the string.
pub assume_specification[ String::push ](s: &mut String, c: char)
    ensures
        final(s)@ == old(s)@.push(c),
;

/// Encodes characters as an owned string.
pub fn text_of(glyphs: &[char]) -> (text: String)
    ensures
        text@ == glyphs@,
{
    let mut text = String::new();
    let mut at: usize = 0;
    while at < glyphs.len()
        invariant
            at <= glyphs.len(),
            text@ == glyphs@.take(at as int),
        decreases glyphs.len() - at,
    {
        text.push(glyphs[at]);
        at += 1;
    }
    text
}

/// Finds the first `c` in `s` at or after `from`; gives the end of `s` if there
/// is none, and `from` itself if it lies beyond the end.
pub fn find_char(s: &[char], from: usize, c: char) -> (at: usize)
    ensures
        at == find(s@, from as int, c),
        from <= at,
        from <= s.len() ==> at <= s.len(),
{
    let mut at: usize = from;
    while at < s.len() && s[at] != c
        invariant
            from <= at,
            from <= s.len() ==> at <= s.len(),
            find(s@, from as int, c) == find(s@, at as int, c),
        decreases s.len() - at,
    {
        at += 1;
    }
    at
}

/// Cuts leading and trailing white space off `s`.
pub fn trim_slice<'a>(s: &'a [char]) -> (t: &'a [char])
    ensures
        t@ == trim(s@),
{
    let mut from: usize = 0;
    while from < s.len() && is_space_char(s[from])
        invariant
            from <= s.len(),
            skip_spaces(s@, 0) == skip_spaces(s@, from as int),
        decreases s.len() - from,
    {
        from += 1;
    }
    let mut to: usize = s.len();
    while from < to && is_space_char(s[to - 1])
        invariant
            from <= to <= s.len(),
            drop_spaces(s@, from as int, s.len() as int) == drop_spaces(s@, from as int, to as int),
        decreases to - from,
    {
        to -= 1;
    }
    slice_subrange(s, from, to)
}

/// Tells whether two texts are the same.
pub fn same_text(a: &[char], b: &[char]) -> (same: bool)
    ensures
        same == (a@ == b@),
{
    if a.len() != b.len() {
        return false;
    }
    let mut at: usize = 0;
    while at < a.len()
        invariant
            at <= a.len(),
            a.len() == b.len(),
            forall|j: int| 0 <= j < at ==> a@[j] == b@[j],
        decreases a.len() - at,
    {
        if a[at] != b[at] {
            return false;
        }
        at += 1;
    }
    assert(a@ =~= b@);
    true
}

/// Compares two texts in lexicographic order by code point.
pub fn compare(a: &[char], b: &[char]) -> (order: Order)
    ensures
        order == Order::Before <==> precedes(a@, b@),
        order == Order::Same <==> a@ == b@,
        order == Order::After <==> precedes(b@, a@),
{
    let mut at: usize = 0;
    while at < a.len() && at < b.len() && a[at] == b[at]
        invariant
            at <= a.len(),
            at <= b.len(),
            forall|j: int| 0 <= j < at ==> a@[j] == b@[j],
        decreases a.len() - at,
    {
        at += 1;
    }
    proof {
        lemma_diverge_at(a@, b@, at as int);
        lemma_precedes_total(a@, b@);
    }
    if at == a.len() && at == b.len() {
        assert(a@ =~= b@);
        Order::Same
    } else if at == a.len() {
        Order::Before
    } else if at == b.len() {
        Order::After
    } else if a[at] < b[at] {
        Order::Before
    } else {
        Order::After
    }
}

} // verus!
