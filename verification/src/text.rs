//! Character-sequence primitives: trimming, searching, splitting, joining and
//! the small lexical classes the script grammar is built from.

use vstd::prelude::*;

verus! {

broadcast use vstd::string::group_string_axioms;

/// Appending one character, as `String::push` documents it.
pub assume_specification[ std::string::String::push ](s: &mut std::string::String, c: char)
    ensures
        final(s)@ == old(s)@.push(c),
;

/// The views of the items of a sequence, in order.
pub open spec fn views<T: View>(items: Seq<T>) -> Seq<T::V> {
    Seq::new(items.len(), |i: int| items[i]@)
}

/// The view of a result: the view of what it holds, on either side.
pub open spec fn result_view<T: View, E: View>(r: Result<T, E>) -> Result<T::V, E::V> {
    match r {
        Ok(value) => Ok(value@),
        Err(error) => Err(error@),
    }
}

/// The view of what an option holds, if it holds something.
pub open spec fn option_view<T: View>(o: Option<T>) -> Option<T::V> {
    match o {
        Some(value) => Some(value@),
        None => None,
    }
}

/// Each text of a list, trimmed.
pub open spec fn trim_all(items: Seq<Seq<char>>) -> Seq<Seq<char>> {
    Seq::new(items.len(), |i: int| trim(items[i]))
}

/// The views of a list with one item more are the views of the list with
/// the view of the item more.
pub proof fn lemma_views_push<T: View>(items: Seq<T>, item: T)
    ensures
        views(items.push(item)) == views(items).push(item@),
{
    assert(views(items.push(item)) =~= views(items).push(item@));
}

/// The characters with the Unicode `White_Space` property.
pub open spec fn is_space(c: char) -> bool {
    let n = c as u32;
    ||| 9 <= n <= 13
    ||| n == 0x20
    ||| n == 0x85
    ||| n == 0xA0
    ||| n == 0x1680
    ||| 0x2000 <= n <= 0x200A
    ||| n == 0x2028
    ||| n == 0x2029
    ||| n == 0x202F
    ||| n == 0x205F
    ||| n == 0x3000
}

/// Whether a character is white space.
pub fn is_space_char(c: char) -> (b: bool)
    ensures
        b == is_space(c),
{
    let n: u32 = c as u32;
    (9 <= n && n <= 13) || n == 0x20 || n == 0x85 || n == 0xA0 || n == 0x1680 || (0x2000 <= n && n
        <= 0x200A) || n == 0x2028 || n == 0x2029 || n == 0x202F || n == 0x205F || n == 0x3000
}

/// The ten ASCII digits.
pub open spec fn is_ascii_digit(c: char) -> bool {
    '0' <= c <= '9'
}

/// The ASCII letters of either case.
pub open spec fn is_ascii_letter(c: char) -> bool {
    ('a' <= c <= 'z') || ('A' <= c <= 'Z')
}

/// First character of an identifier: a letter or an underscore.
pub open spec fn is_ident_start(c: char) -> bool {
    is_ascii_letter(c) || c == '_'
}

/// Later character of an identifier: a letter, a digit or an underscore.
pub open spec fn is_ident_part(c: char) -> bool {
    is_ascii_letter(c) || is_ascii_digit(c) || c == '_'
}

/// Whether a character is an ASCII digit.
pub fn is_digit_char(c: char) -> (b: bool)
    ensures
        b == is_ascii_digit(c),
{
    '0' <= c && c <= '9'
}

/// Whether a character can start an identifier.
pub fn is_ident_start_char(c: char) -> (b: bool)
    ensures
        b == is_ident_start(c),
{
    ('a' <= c && c <= 'z') || ('A' <= c && c <= 'Z') || c == '_'
}

/// Whether a character can go on an identifier.
pub fn is_ident_part_char(c: char) -> (b: bool)
    ensures
        b == is_ident_part(c),
{
    ('a' <= c && c <= 'z') || ('A' <= c && c <= 'Z') || ('0' <= c && c <= '9') || c == '_'
}

/// ASCII upper-casing of one character; every other character is kept.
pub open spec fn upper(c: char) -> char {
    if 'a' <= c <= 'z' {
        ((c as u8 - 32) as u8) as char
    } else {
        c
    }
}

/// A character in ASCII upper case.
pub fn upper_char(c: char) -> (r: char)
    ensures
        r == upper(c),
{
    if 'a' <= c && c <= 'z' {
        let b: u8 = c as u8;
        (b - 32) as char
    } else {
        c
    }
}

/// ASCII upper-casing of a text, character by character.
pub open spec fn upper_text(s: Seq<char>) -> Seq<char> {
    Seq::new(s.len(), |i: int| upper(s[i]))
}

/// A text in ASCII upper case.
pub fn upper_chars(s: &Vec<char>) -> (r: Vec<char>)
    ensures
        r@ == upper_text(s@),
{
    let mut out: Vec<char> = Vec::new();
    let mut i: usize = 0;
    while i < s.len()
        invariant
            i <= s.len(),
            out@ =~= upper_text(s@).take(i as int),
        decreases s.len() - i,
    {
        out.push(upper_char(s[i]));
        i += 1;
    }
    out
}

/// Every character is an ASCII character.
pub open spec fn all_ascii(s: Seq<char>) -> bool {
    forall|i: int| 0 <= i < s.len() ==> (#[trigger] s[i] as u32) < 128
}

/// The upper case of a text as `str::to_uppercase` gives it, which maps
/// each character by the Unicode tables and can give several for one.
pub uninterp spec fn uppercase_of(s: Seq<char>) -> Seq<char>;

/// Calls `str::to_uppercase`. The claim is that the result is a function of
/// the text, and that on a text of ASCII characters it is the text with its
/// letters `a` to `z` in upper case and nothing else changed.
#[verifier::external_body]
pub(crate) fn to_upper(s: &str) -> (r: String)
    ensures
        r@ == uppercase_of(s@),
        all_ascii(s@) ==> r@ == upper_text(s@),
{
    s.to_uppercase()
}

/// The upper case of a text: of ASCII characters alone, its letters in
/// upper case; with any other character in it, what the Unicode tables give.
pub open spec fn upper_fold(s: Seq<char>) -> Seq<char> {
    if all_ascii(s) {
        upper_text(s)
    } else {
        uppercase_of(s)
    }
}

/// A text in upper case.
pub fn fold_upper(s: &Vec<char>) -> (r: Vec<char>)
    ensures
        r@ == upper_fold(s@),
        r@ == uppercase_of(s@),
{
    let text = to_text(s);
    let up = to_upper(text.as_str());
    to_chars(up.as_str())
}

/// What follows the first space of a line; nothing where it has none.
pub open spec fn after_first_space(line: Seq<char>) -> Seq<char> {
    match index_of(line, ' ') {
        Some(at) => line.skip(at + 1),
        None => Seq::empty(),
    }
}

/// What follows the first space of a line, trimmed.
pub fn rest_after_space(line: &Vec<char>) -> (r: Vec<char>)
    ensures
        r@ == trim(after_first_space(line@)),
{
    match find_char(line, ' ') {
        Some(at) => {
            let rest = slice(line, at + 1, line.len());
            assert(rest@ =~= line@.skip(at + 1));
            trimmed(&rest)
        },
        None => {
            let nothing: Vec<char> = Vec::new();
            assert(nothing@ =~= Seq::<char>::empty());
            trimmed(&nothing)
        },
    }
}

/// Equality up to ASCII case.
pub open spec fn eq_ignore_case(a: Seq<char>, b: Seq<char>) -> bool {
    upper_text(a) == upper_text(b)
}

/// `p` is a prefix of `s`.
pub open spec fn has_prefix(s: Seq<char>, p: Seq<char>) -> bool {
    p.len() <= s.len() && s.take(p.len() as int) == p
}

/// `p` is a prefix of `s` up to ASCII case.
pub open spec fn has_prefix_ignore_case(s: Seq<char>, p: Seq<char>) -> bool {
    p.len() <= s.len() && eq_ignore_case(s.take(p.len() as int), p)
}

/// The characters of a string.
pub fn to_chars(s: &str) -> (v: Vec<char>)
    ensures
        v@ == s@,
{
    let mut v: Vec<char> = Vec::new();
    for c in it: s.chars()
        invariant
            it.seq() == s@,
            v@ =~= s@.take(it.index() as int),
    {
        v.push(c);
    }
    assert(v@ =~= s@);
    v
}

/// The string of a list of characters.
pub fn to_text(v: &Vec<char>) -> (s: String)
    ensures
        s@ == v@,
{
    let mut s = String::new();
    let mut i: usize = 0;
    while i < v.len()
        invariant
            i <= v.len(),
            s@ =~= v@.take(i as int),
        decreases v.len() - i,
    {
        s.push(v[i]);
        i += 1;
    }
    assert(s@ =~= v@);
    s
}

/// A copy of `v[from..to]`.
pub fn slice(v: &Vec<char>, from: usize, to: usize) -> (r: Vec<char>)
    requires
        from <= to <= v.len(),
    ensures
        r@ == v@.subrange(from as int, to as int),
{
    let mut r: Vec<char> = Vec::new();
    let mut i: usize = from;
    while i < to
        invariant
            from <= i <= to <= v.len(),
            r@ =~= v@.subrange(from as int, i as int),
        decreases to - i,
    {
        r.push(v[i]);
        i += 1;
    }
    r
}

/// A copy of a text.
pub fn copy(v: &Vec<char>) -> (r: Vec<char>)
    ensures
        r@ == v@,
{
    let r = slice(v, 0, v.len());
    assert(r@ =~= v@);
    r
}

/// Whether two texts hold the same characters.
pub fn same_text(a: &Vec<char>, b: &Vec<char>) -> (r: bool)
    ensures
        r == (a@ == b@),
{
    if a.len() != b.len() {
        return false;
    }
    let mut i: usize = 0;
    while i < a.len()
        invariant
            i <= a.len(),
            a.len() == b.len(),
            a@.take(i as int) =~= b@.take(i as int),
        decreases a.len() - i,
    {
        if a[i] != b[i] {
            return false;
        }
        assert(a@.take(i + 1) =~= a@.take(i as int).push(a@[i as int]));
        assert(b@.take(i + 1) =~= b@.take(i as int).push(b@[i as int]));
        i += 1;
    }
    assert(a@ =~= a@.take(a.len() as int));
    assert(b@ =~= b@.take(b.len() as int));
    true
}

/// Whether two texts are equal up to ASCII case.
pub fn equals_ignore_case(a: &Vec<char>, b: &Vec<char>) -> (r: bool)
    ensures
        r == eq_ignore_case(a@, b@),
{
    if a.len() != b.len() {
        assert(upper_text(a@).len() != upper_text(b@).len());
        return false;
    }
    let mut i: usize = 0;
    while i < a.len()
        invariant
            i <= a.len(),
            a.len() == b.len(),
            forall|j: int| 0 <= j < i ==> upper(a@[j]) == upper(b@[j]),
        decreases a.len() - i,
    {
        if upper_char(a[i]) != upper_char(b[i]) {
            assert(upper_text(a@)[i as int] != upper_text(b@)[i as int]);
            return false;
        }
        i += 1;
    }
    assert(upper_text(a@) =~= upper_text(b@));
    true
}

/// Whether `s` starts with `p`.
pub fn starts_with(s: &Vec<char>, p: &Vec<char>) -> (r: bool)
    ensures
        r == has_prefix(s@, p@),
{
    if p.len() > s.len() {
        return false;
    }
    let head = slice(s, 0, p.len());
    same_text(&head, p)
}

/// Whether `s` starts with `p` up to ASCII case.
pub fn starts_with_ignore_case(s: &Vec<char>, p: &Vec<char>) -> (r: bool)
    ensures
        r == has_prefix_ignore_case(s@, p@),
{
    if p.len() > s.len() {
        return false;
    }
    let head = slice(s, 0, p.len());
    equals_ignore_case(&head, p)
}

/// Index of the first `c` at or after `i`, or the length of `s` when there is none.
pub open spec fn find_from(s: Seq<char>, c: char, i: int) -> int
    decreases s.len() - i,
{
    if 0 <= i < s.len() && s[i] != c {
        find_from(s, c, i + 1)
    } else if i < s.len() {
        i
    } else {
        s.len() as int
    }
}

/// Index of the first `c` in `s`, if any.
pub open spec fn index_of(s: Seq<char>, c: char) -> Option<int> {
    let i = find_from(s, c, 0);
    if i < s.len() {
        Some(i)
    } else {
        None
    }
}

/// `c` stands somewhere in `s`.
pub open spec fn has_char(s: Seq<char>, c: char) -> bool {
    index_of(s, c).is_some()
}

/// The first `c` from `i` on lies within the text, is a `c` where it is a
/// character, and no character between `i` and it is one.
pub proof fn lemma_find_from(s: Seq<char>, c: char, i: int)
    requires
        0 <= i <= s.len(),
    ensures
        i <= find_from(s, c, i) <= s.len(),
        find_from(s, c, i) < s.len() ==> s[find_from(s, c, i)] == c,
        forall|j: int| i <= j < find_from(s, c, i) ==> s[j] != c,
    decreases s.len() - i,
{
    if i < s.len() && s[i] != c {
        lemma_find_from(s, c, i + 1);
    }
}

/// Index of the first `c` in `s`, if any.
pub fn find_char(s: &Vec<char>, c: char) -> (r: Option<usize>)
    ensures
        r matches Some(i) ==> index_of(s@, c) == Some(i as int) && i < s.len() && s@[i as int] == c,
        r is None ==> index_of(s@, c) is None,
{
    let mut i: usize = 0;
    while i < s.len()
        invariant
            i <= s.len(),
            find_from(s@, c, i as int) == find_from(s@, c, 0),
        decreases s.len() - i,
    {
        if s[i] == c {
            return Some(i);
        }
        i += 1;
    }
    None
}

/// Index of the first character at or after `i` that is no white space.
pub open spec fn skip_spaces(s: Seq<char>, i: int) -> int
    decreases s.len() - i,
{
    if 0 <= i < s.len() && is_space(s[i]) {
        skip_spaces(s, i + 1)
    } else {
        i
    }
}

/// End of the text that is left of `s[from..to]` once trailing white space is dropped.
pub open spec fn drop_spaces_back(s: Seq<char>, from: int, to: int) -> int
    decreases to,
{
    if 0 <= from < to <= s.len() && is_space(s[to - 1]) {
        drop_spaces_back(s, from, to - 1)
    } else {
        to
    }
}

/// `s` without leading and trailing white space.
pub open spec fn trim(s: Seq<char>) -> Seq<char> {
    let a = skip_spaces(s, 0);
    let b = drop_spaces_back(s, a, s.len() as int);
    s.subrange(a, b)
}

/// The white space from `i` on ends within the text, and what follows it
/// is no white space.
pub proof fn lemma_skip_spaces(s: Seq<char>, i: int)
    requires
        0 <= i <= s.len(),
    ensures
        i <= skip_spaces(s, i) <= s.len(),
        skip_spaces(s, i) < s.len() ==> !is_space(s[skip_spaces(s, i)]),
        forall|j: int| i <= j < skip_spaces(s, i) ==> is_space(s[j]),
    decreases s.len() - i,
{
    if i < s.len() && is_space(s[i]) {
        lemma_skip_spaces(s, i + 1);
    }
}

/// The white space before `to` starts within `s[from..to]`, and what
/// precedes it is no white space.
pub proof fn lemma_drop_spaces_back(s: Seq<char>, from: int, to: int)
    requires
        0 <= from <= to <= s.len(),
    ensures
        from <= drop_spaces_back(s, from, to) <= to,
        drop_spaces_back(s, from, to) > from ==> !is_space(s[drop_spaces_back(s, from, to) - 1]),
        forall|j: int| drop_spaces_back(s, from, to) <= j < to ==> is_space(s[j]),
    decreases to,
{
    if from < to && is_space(s[to - 1]) {
        lemma_drop_spaces_back(s, from, to - 1);
    }
}

/// `s` without leading and trailing white space.
pub fn trimmed(s: &Vec<char>) -> (r: Vec<char>)
    ensures
        r@ == trim(s@),
{
    let mut a: usize = 0;
    while a < s.len() && is_space_char(s[a])
        invariant
            a <= s.len(),
            skip_spaces(s@, a as int) == skip_spaces(s@, 0),
        decreases s.len() - a,
    {
        a += 1;
    }
    let mut b: usize = s.len();
    while a < b && is_space_char(s[b - 1])
        invariant
            a <= b <= s.len(),
            drop_spaces_back(s@, a as int, b as int) == drop_spaces_back(
                s@,
                a as int,
                s.len() as int,
            ),
        decreases b,
    {
        b -= 1;
    }
    slice(s, a, b)
}

/// The pieces of `s[start..]` between occurrences of `sep`, where `i` is how
/// far the current piece has been scanned.
pub open spec fn split_from(s: Seq<char>, sep: char, start: int, i: int) -> Seq<Seq<char>>
    decreases s.len() - i,
{
    if 0 <= start <= i < s.len() {
        if s[i] == sep {
            seq![s.subrange(start, i)] + split_from(s, sep, i + 1, i + 1)
        } else {
            split_from(s, sep, start, i + 1)
        }
    } else {
        seq![s.subrange(start, s.len() as int)]
    }
}

/// The pieces of `s` between occurrences of `sep`: one more than there are
/// separators, so the empty text gives one empty piece.
pub open spec fn split(s: Seq<char>, sep: char) -> Seq<Seq<char>> {
    split_from(s, sep, 0, 0)
}

/// The pieces of `s` between occurrences of `sep`.
pub fn split_on(s: &Vec<char>, sep: char) -> (r: Vec<Vec<char>>)
    ensures
        views(r@) == split(s@, sep),
{
    let mut out: Vec<Vec<char>> = Vec::new();
    let mut start: usize = 0;
    let mut i: usize = 0;
    while i < s.len()
        invariant
            start <= i <= s.len(),
            views(out@) + split_from(s@, sep, start as int, i as int) == split(s@, sep),
        decreases s.len() - i,
    {
        if s[i] == sep {
            let piece = slice(s, start, i);
            proof {
                let before = views(out@);
                let rest = split_from(s@, sep, i + 1, i + 1);
                assert(before + (seq![piece@] + rest) =~= before.push(piece@) + rest);
            }
            let ghost before = views(out@);
            out.push(piece);
            assert(views(out@) =~= before.push(piece@));
            start = i + 1;
        }
        i += 1;
    }
    let piece = slice(s, start, s.len());
    let ghost before = views(out@);
    out.push(piece);
    assert(views(out@) =~= before.push(piece@));
    assert(before + seq![piece@] =~= before.push(piece@));
    out
}

/// The maximal runs of characters that are no white space, in order, where
/// `start` is where the current run began and `i` how far it has been scanned.
pub open spec fn words_from(s: Seq<char>, start: int, i: int) -> Seq<Seq<char>>
    decreases s.len() - i,
{
    if 0 <= start <= i < s.len() {
        if is_space(s[i]) {
            if start < i {
                seq![s.subrange(start, i)] + words_from(s, i + 1, i + 1)
            } else {
                words_from(s, i + 1, i + 1)
            }
        } else {
            words_from(s, start, i + 1)
        }
    } else if 0 <= start < s.len() {
        seq![s.subrange(start, s.len() as int)]
    } else {
        Seq::empty()
    }
}

/// The words of `s`: its maximal runs of characters that are no white space.
pub open spec fn words(s: Seq<char>) -> Seq<Seq<char>> {
    words_from(s, 0, 0)
}

/// The words of `s`.
pub fn split_words(s: &Vec<char>) -> (r: Vec<Vec<char>>)
    ensures
        views(r@) == words(s@),
{
    let mut out: Vec<Vec<char>> = Vec::new();
    let mut start: usize = 0;
    let mut i: usize = 0;
    while i < s.len()
        invariant
            start <= i <= s.len(),
            views(out@) + words_from(s@, start as int, i as int) == words(s@),
        decreases s.len() - i,
    {
        if is_space_char(s[i]) {
            if start < i {
                let piece = slice(s, start, i);
                proof {
                    let before = views(out@);
                    let rest = words_from(s@, i + 1, i + 1);
                    assert(before + (seq![piece@] + rest) =~= before.push(piece@) + rest);
                    lemma_views_push(out@, piece);
                }
                out.push(piece);
            }
            start = i + 1;
        }
        i += 1;
    }
    if start < s.len() {
        let piece = slice(s, start, s.len());
        proof {
            assert(views(out@) + seq![piece@] =~= views(out@).push(piece@));
            lemma_views_push(out@, piece);
        }
        out.push(piece);
    } else {
        assert(views(out@) + Seq::<Seq<char>>::empty() =~= views(out@));
    }
    out
}

/// The items of `parts` with one space between neighbours.
pub open spec fn join(parts: Seq<Seq<char>>) -> Seq<char>
    decreases parts.len(),
{
    if parts.len() == 0 {
        Seq::empty()
    } else if parts.len() == 1 {
        parts[0]
    } else {
        join(parts.drop_last()) + seq![' '] + parts.last()
    }
}

/// Appends `more` to `out`.
pub fn append(out: &mut Vec<char>, more: &Vec<char>)
    ensures
        final(out)@ == old(out)@ + more@,
{
    let mut i: usize = 0;
    while i < more.len()
        invariant
            i <= more.len(),
            out@ =~= old(out)@ + more@.take(i as int),
        decreases more.len() - i,
    {
        out.push(more[i]);
        i += 1;
    }
    assert(more@.take(more.len() as int) =~= more@);
}

/// Joins `parts[from..to]` with one space between neighbours.
pub fn join_range(parts: &Vec<Vec<char>>, from: usize, to: usize) -> (r: Vec<char>)
    requires
        from <= to <= parts.len(),
    ensures
        r@ == join(views(parts@).subrange(from as int, to as int)),
{
    let mut out: Vec<char> = Vec::new();
    let mut i: usize = from;
    let ghost all = views(parts@);
    while i < to
        invariant
            from <= i <= to <= parts.len(),
            all == views(parts@),
            out@ == join(all.subrange(from as int, i as int)),
        decreases to - i,
    {
        proof {
            let next = all.subrange(from as int, i + 1);
            assert(next.drop_last() =~= all.subrange(from as int, i as int));
            assert(next.last() == parts@[i as int]@);
        }
        if i > from {
            out.push(' ');
        }
        append(&mut out, &parts[i]);
        proof {
            let next = all.subrange(from as int, i + 1);
            if i > from {
                assert(out@ =~= join(next.drop_last()) + seq![' '] + next.last());
            } else {
                assert(next.len() == 1);
                assert(out@ =~= next[0]);
            }
        }
        i += 1;
    }
    out
}

/// The lines of `s`: its pieces between line feeds, without a last empty
/// piece. A carriage return before a line feed stays in its line, as white
/// space at the line's end.
pub open spec fn lines(s: Seq<char>) -> Seq<Seq<char>> {
    let pieces = split(s, '\n');
    if pieces.len() > 0 && pieces.last().len() == 0 {
        pieces.drop_last()
    } else {
        pieces
    }
}

/// The lines of `s`.
pub fn split_lines(s: &Vec<char>) -> (r: Vec<Vec<char>>)
    ensures
        views(r@) == lines(s@),
{
    let mut out = split_on(s, '\n');
    let n = out.len();
    if n > 0 && out[n - 1].len() == 0 {
        assert(views(out@).last() == out@[n - 1]@);
        out.pop();
        assert(views(out@) =~= split(s@, '\n').drop_last());
    }
    out
}

/// The number that the decimal digits of `s` write.
pub open spec fn digits_value(s: Seq<char>) -> nat
    decreases s.len(),
{
    if s.len() == 0 {
        0
    } else {
        digits_value(s.drop_last()) * 10 + (s.last() as nat - '0' as nat) as nat
    }
}

/// Every character is an ASCII digit.
pub open spec fn all_digits(s: Seq<char>) -> bool {
    forall|i: int| 0 <= i < s.len() ==> is_ascii_digit(#[trigger] s[i])
}

/// `s` without a leading `+`.
pub open spec fn numeral_digits(s: Seq<char>) -> Seq<char> {
    if s.len() > 0 && s[0] == '+' {
        s.skip(1)
    } else {
        s
    }
}

/// The value of an unsigned decimal numeral: an optional `+`, then one digit
/// or more, and a value of `max` at most. Anything else has no value.
pub open spec fn unsigned_value(s: Seq<char>, max: nat) -> Option<nat> {
    let digits = numeral_digits(s);
    if digits.len() > 0 && all_digits(digits) && digits_value(digits) <= max {
        Some(digits_value(digits))
    } else {
        None
    }
}

/// A numeral is worth no less than any of its beginnings.
pub proof fn lemma_digits_value_grows(s: Seq<char>, k: int)
    requires
        0 <= k <= s.len(),
    ensures
        digits_value(s.take(k)) <= digits_value(s),
    decreases s.len() - k,
{
    if k < s.len() {
        lemma_digits_value_grows(s, k + 1);
        assert(s.take(k + 1).drop_last() =~= s.take(k));
    } else {
        assert(s.take(k) =~= s);
    }
}

/// The value of an unsigned decimal numeral of `max` at most.
pub fn parse_unsigned(s: &Vec<char>, max: u64) -> (r: Option<u64>)
    ensures
        r matches Some(n) ==> unsigned_value(s@, max as nat) == Some(n as nat),
        r is None ==> unsigned_value(s@, max as nat) is None,
{
    let first: usize = if s.len() > 0 && s[0] == '+' {
        1
    } else {
        0
    };
    let ghost digits = s@.skip(first as int);
    assert(s@.skip(0) =~= s@);
    if first == s.len() {
        return None;
    }
    let mut value: u64 = 0;
    let mut i: usize = first;
    while i < s.len()
        invariant
            first <= i <= s.len(),
            first < s.len(),
            digits == s@.skip(first as int),
            digits == numeral_digits(s@),
            all_digits(digits.take(i - first)),
            value == digits_value(digits.take(i - first)),
            value <= max,
        decreases s.len() - i,
    {
        let c = s[i];
        proof {
            assert(digits[i - first] == c);
            assert(digits.take(i - first + 1).drop_last() =~= digits.take(i - first));
            assert(digits.take(i - first + 1).last() == c);
        }
        if !is_digit_char(c) {
            return None;
        }
        let digit: u64 = (c as u64) - ('0' as u64);
        let next: u128 = (value as u128) * 10 + (digit as u128);
        if next > max as u128 {
            proof {
                lemma_digits_value_grows(digits, i - first + 1);
            }
            return None;
        }
        value = next as u64;
        assert forall|j: int| 0 <= j < i - first + 1 implies is_ascii_digit(
            #[trigger] digits.take(i - first + 1)[j],
        ) by {
            if j < i - first {
                assert(digits.take(i - first)[j] == digits[j]);
            }
        }
        i += 1;
    }
    assert(digits.take(i - first) =~= digits);
    Some(value)
}

/// `s` trimmed, and without its quotes when what is left opens and closes
/// with the same quote character, double or single, and holds both.
pub open spec fn unquoted(s: Seq<char>) -> Seq<char> {
    let t = trim(s);
    if is_quoted(t) {
        t.subrange(1, t.len() - 1)
    } else {
        t
    }
}

/// `t` holds two characters at least, and its first and last are the same
/// quote character.
pub open spec fn is_quoted(t: Seq<char>) -> bool {
    t.len() >= 2 && ((t[0] == '"' && t.last() == '"') || (t[0] == '\'' && t.last() == '\''))
}

/// Whether a text stands in a pair of quotes.
pub fn quoted(t: &Vec<char>) -> (r: bool)
    ensures
        r == is_quoted(t@),
{
    let n = t.len();
    n >= 2 && ((t[0] == '"' && t[n - 1] == '"') || (t[0] == '\'' && t[n - 1] == '\''))
}

/// `s` trimmed and without its pair of quotes, if it has one.
pub fn strip_quotes(s: &Vec<char>) -> (r: Vec<char>)
    ensures
        r@ == unquoted(s@),
{
    let t = trimmed(s);
    if quoted(&t) {
        slice(&t, 1, t.len() - 1)
    } else {
        t
    }
}

/// Trims `s` and removes one pair of matching quotes around it, if there is one.
pub fn trim_quotes(s: &str) -> (r: String)
    ensures
        r@ == unquoted(s@),
{
    let chars = to_chars(s);
    let stripped = strip_quotes(&chars);
    to_text(&stripped)
}

/// A letter or underscore followed by letters, digits and underscores.
pub open spec fn is_identifier(s: Seq<char>) -> bool {
    &&& s.len() >= 1
    &&& is_ident_start(s[0])
    &&& forall|i: int| 1 <= i < s.len() ==> is_ident_part(#[trigger] s[i])
}

/// An identifier in braces: `{name}`.
pub open spec fn is_placeholder(s: Seq<char>) -> bool {
    s.len() >= 3 && s[0] == '{' && s.last() == '}' && is_identifier(s.subrange(1, s.len() - 1))
}

/// An identifier, bare or in braces.
pub open spec fn identifier_like(s: Seq<char>) -> bool {
    is_identifier(s) || is_placeholder(s)
}

/// Whether `s[from..to]` is an identifier.
pub fn identifier_in(s: &Vec<char>, from: usize, to: usize) -> (r: bool)
    requires
        from <= to <= s.len(),
    ensures
        r == is_identifier(s@.subrange(from as int, to as int)),
{
    let ghost part = s@.subrange(from as int, to as int);
    if from == to {
        return false;
    }
    assert(part[0] == s@[from as int]);
    if !is_ident_start_char(s[from]) {
        return false;
    }
    let mut i: usize = from + 1;
    while i < to
        invariant
            from < i <= to <= s.len(),
            part == s@.subrange(from as int, to as int),
            forall|j: int| 1 <= j < i - from ==> is_ident_part(#[trigger] part[j]),
        decreases to - i,
    {
        if !is_ident_part_char(s[i]) {
            assert(part[i - from] == s@[i as int]);
            return false;
        }
        assert(part[i - from] == s@[i as int]);
        i += 1;
    }
    true
}

/// Whether a text is an identifier, bare or in braces.
pub fn check_identifier_like(s: &Vec<char>) -> (r: bool)
    ensures
        r == identifier_like(s@),
{
    let n = s.len();
    assert(s@.subrange(0, n as int) =~= s@);
    if identifier_in(s, 0, n) {
        return true;
    }
    if n >= 3 && s[0] == '{' && s[n - 1] == '}' {
        identifier_in(s, 1, n - 1)
    } else {
        false
    }
}

/// Whether `s` is a plain identifier (`name`, `field_name`) or a variable in
/// braces (`{name}`).
pub fn is_identifier_like(s: &str) -> (r: bool)
    ensures
        r == identifier_like(s@),
{
    let chars = to_chars(s);
    check_identifier_like(&chars)
}

/// A text in upper case that opens a block: `USING` or `RESPONSE` alone, or
/// a text that starts with `REQUEST` and a space.
pub open spec fn keyword_text(up: Seq<char>) -> bool {
    up == "USING"@ || has_prefix(up, "REQUEST "@) || up == "RESPONSE"@
}

/// A line that opens a block: one whose upper case is `USING` or `RESPONSE`
/// alone, or starts with `REQUEST` and a space. The line is taken as it
/// stands, without trimming.
pub open spec fn toplevel_keyword(line: Seq<char>) -> bool {
    keyword_text(upper_fold(line))
}

/// Whether a line opens a block.
pub fn opens_block(line: &Vec<char>) -> (r: bool)
    ensures
        r == toplevel_keyword(line@),
        r == keyword_text(uppercase_of(line@)),
{
    let up = fold_upper(line);
    let using = to_chars("USING");
    let request = to_chars("REQUEST ");
    let response = to_chars("RESPONSE");
    same_text(&up, &using) || starts_with(&up, &request) || same_text(&up, &response)
}

/// Whether `line` opens a block of the script.
pub fn is_toplevel_keyword(line: &str) -> (r: bool)
    ensures
        r == toplevel_keyword(line@),
        r == keyword_text(uppercase_of(line@)),
{
    let chars = to_chars(line);
    opens_block(&chars)
}

/// The texts of `items`, each trimmed, as strings.
pub fn trimmed_strings(items: &Vec<Vec<char>>) -> (r: Vec<String>)
    ensures
        views(r@) == trim_all(views(items@)),
{
    let mut out: Vec<String> = Vec::new();
    let mut i: usize = 0;
    while i < items.len()
        invariant
            i <= items.len(),
            views(out@) =~= trim_all(views(items@)).take(i as int),
        decreases items.len() - i,
    {
        let piece = trimmed(&items[i]);
        let item = to_text(&piece);
        proof {
            lemma_views_push(out@, item);
        }
        out.push(item);
        i += 1;
    }
    assert(trim_all(views(items@)).take(items.len() as int) =~= trim_all(views(items@)));
    out
}

/// The texts of `items` as strings.
pub fn strings(items: &Vec<Vec<char>>) -> (r: Vec<String>)
    ensures
        views(r@) == views(items@),
{
    let mut out: Vec<String> = Vec::new();
    let mut i: usize = 0;
    while i < items.len()
        invariant
            i <= items.len(),
            views(out@) =~= views(items@).take(i as int),
        decreases items.len() - i,
    {
        let item = to_text(&items[i]);
        proof {
            lemma_views_push(out@, item);
        }
        out.push(item);
        i += 1;
    }
    assert(views(items@).take(items.len() as int) =~= views(items@));
    out
}

/// The character that writes the digit `d`.
pub open spec fn digit_char(d: nat) -> char {
    ((48 + d) as u8) as char
}

/// The decimal numeral of `n`, without leading zeros.
pub open spec fn decimal_text(n: nat) -> Seq<char>
    decreases n,
{
    if n < 10 {
        seq![digit_char(n)]
    } else {
        decimal_text(n / 10).push(digit_char(n % 10))
    }
}

/// Appends the decimal numeral of `n`.
pub fn push_decimal(out: &mut Vec<char>, n: usize)
    ensures
        final(out)@ == old(out)@ + decimal_text(n as nat),
    decreases n,
{
    if n >= 10 {
        push_decimal(out, n / 10);
    }
    let digit: u8 = (n % 10) as u8;
    out.push((48 + digit) as char);
    assert(out@ =~= old(out)@ + decimal_text(n as nat));
}

/// Appends a text given as a string.
pub fn push_text(out: &mut Vec<char>, more: &str)
    ensures
        final(out)@ == old(out)@ + more@,
{
    let chars = to_chars(more);
    append(out, &chars);
}

} // verus!
