//! Character and string operations: identifier case conversion and the small
//! text searches the schema and pointer code is built from.
use vstd::prelude::*;

verus! {

/// `String::push` appends one character at the end of the string.
pub assume_specification[ std::string::String::push ](s: &mut std::string::String, ch: char)
    ensures
        final(s)@ == old(s)@.push(ch),
;

// ---------------------------------------------------------------------------
// ASCII character classes
// ---------------------------------------------------------------------------
pub open spec fn is_ascii_upper(c: char) -> bool {
    'A' <= c && c <= 'Z'
}

pub open spec fn is_ascii_lower(c: char) -> bool {
    'a' <= c && c <= 'z'
}

pub open spec fn is_ascii_digit(c: char) -> bool {
    '0' <= c && c <= '9'
}

pub open spec fn is_ascii_alnum(c: char) -> bool {
    is_ascii_upper(c) || is_ascii_lower(c) || is_ascii_digit(c)
}

pub open spec fn ascii_lower(c: char) -> char {
    if is_ascii_upper(c) {
        ((c as u32) + 32) as char
    } else {
        c
    }
}

pub open spec fn ascii_upper(c: char) -> char {
    if is_ascii_lower(c) {
        ((c as u32) - 32) as char
    } else {
        c
    }
}

pub fn char_is_ascii_upper(c: char) -> (r: bool)
    ensures
        r == is_ascii_upper(c),
{
    'A' <= c && c <= 'Z'
}

pub fn char_is_ascii_alnum(c: char) -> (r: bool)
    ensures
        r == is_ascii_alnum(c),
{
    ('A' <= c && c <= 'Z') || ('a' <= c && c <= 'z') || ('0' <= c && c <= '9')
}

pub fn char_to_ascii_lower(c: char) -> (r: char)
    ensures
        r == ascii_lower(c),
{
    if 'A' <= c && c <= 'Z' {
        let b: u8 = c as u8;
        assert(b as u32 == c as u32);
        ((b + 32) as char)
    } else {
        c
    }
}

pub fn char_to_ascii_upper(c: char) -> (r: char)
    ensures
        r == ascii_upper(c),
{
    if 'a' <= c && c <= 'z' {
        let b: u8 = c as u8;
        assert(b as u32 == c as u32);
        ((b - 32) as char)
    } else {
        c
    }
}


// ---------------------------------------------------------------------------
// Moving between strings and character vectors
// ---------------------------------------------------------------------------
/// The characters of `s`, in order.
pub fn chars_of(s: &str) -> (v: Vec<char>)
    ensures
        v@ == s@,
{
    let mut v: Vec<char> = Vec::new();
    for c in it: s.chars()
        invariant
            it.seq() == s@,
            v@ == s@.take(it.index() as int),
    {
        v.push(c);
        proof {
            assert(s@.take(it.index() as int + 1) =~= s@.take(it.index() as int).push(c));
        }
    }
    assert(s@.take(s@.len() as int) =~= s@);
    v
}

/// Appends the characters `cs[from..to]` to `out`.
pub fn push_chars(out: &mut String, cs: &Vec<char>, from: usize, to: usize)
    requires
        from <= to <= cs@.len(),
    ensures
        final(out)@ == old(out)@ + cs@.subrange(from as int, to as int),
{
    let mut i = from;
    while i < to
        invariant
            from <= i <= to <= cs@.len(),
            out@ == old(out)@ + cs@.subrange(from as int, i as int),
        decreases to - i,
    {
        out.push(cs[i]);
        assert(cs@.subrange(from as int, i + 1) =~= cs@.subrange(from as int, i as int).push(cs@[i as int]));
        i = i + 1;
    }
}

/// The string made of the characters `cs[from..to]`.
pub fn string_of(cs: &Vec<char>, from: usize, to: usize) -> (r: String)
    requires
        from <= to <= cs@.len(),
    ensures
        r@ == cs@.subrange(from as int, to as int),
{
    let mut r = String::new();
    push_chars(&mut r, cs, from, to);
    r
}

/// Appends `s` to `out`.
pub fn push_str(out: &mut String, s: &str)
    ensures
        final(out)@ == old(out)@ + s@,
{
    let cs = chars_of(s);
    push_chars(out, &cs, 0, cs.len());
    assert(cs@.subrange(0, cs@.len() as int) =~= s@);
}

/// An owned copy of `s`.
pub fn owned(s: &str) -> (r: String)
    ensures
        r@ == s@,
{
    let mut r = String::new();
    push_str(&mut r, s);
    r
}

/// Whether two character sequences are equal.
pub fn chars_eq(a: &Vec<char>, b: &Vec<char>) -> (r: bool)
    ensures
        r == (a@ == b@),
{
    if a.len() != b.len() {
        return false;
    }
    let mut i: usize = 0;
    while i < a.len()
        invariant
            a@.len() == b@.len(),
            i <= a@.len(),
            forall|j: int| 0 <= j < i ==> a@[j] == b@[j],
        decreases a@.len() - i,
    {
        if a[i] != b[i] {
            return false;
        }
        i = i + 1;
    }
    assert(a@ =~= b@);
    true
}

/// Whether two strings hold the same characters.
pub fn str_eq(a: &str, b: &str) -> (r: bool)
    ensures
        r == (a@ == b@),
{
    let ca = chars_of(a);
    let cb = chars_of(b);
    chars_eq(&ca, &cb)
}

// ---------------------------------------------------------------------------
// Trimming
// ---------------------------------------------------------------------------
/// `s` without its leading characters equal to `c`.
pub open spec fn trim_start_char(s: Seq<char>, c: char) -> Seq<char>
    decreases s.len(),
{
    if s.len() > 0 && s[0] == c {
        trim_start_char(s.drop_first(), c)
    } else {
        s
    }
}

/// `s` without its trailing characters equal to `c`.
pub open spec fn trim_end_char(s: Seq<char>, c: char) -> Seq<char>
    decreases s.len(),
{
    if s.len() > 0 && s.last() == c {
        trim_end_char(s.drop_last(), c)
    } else {
        s
    }
}

/// `s` without the characters equal to `c` at either end.
pub open spec fn trim_char(s: Seq<char>, c: char) -> Seq<char> {
    trim_end_char(trim_start_char(s, c), c)
}

proof fn lemma_trim_start_at(s: Seq<char>, c: char, i: int)
    requires
        0 <= i <= s.len(),
        forall|j: int| 0 <= j < i ==> s[j] == c,
        i == s.len() || s[i] != c,
    ensures
        trim_start_char(s, c) == s.subrange(i, s.len() as int),
    decreases i,
{
    if i == 0 {
        assert(s.subrange(0, s.len() as int) =~= s);
    } else {
        lemma_trim_start_at(s.drop_first(), c, i - 1);
        assert(s.drop_first().subrange(i - 1, s.len() - 1) =~= s.subrange(i, s.len() as int));
    }
}

proof fn lemma_trim_end_at(s: Seq<char>, c: char, k: int)
    requires
        0 <= k <= s.len(),
        forall|j: int| k <= j < s.len() ==> s[j] == c,
        k == 0 || s[k - 1] != c,
    ensures
        trim_end_char(s, c) == s.subrange(0, k),
    decreases s.len() - k,
{
    if k == s.len() {
        assert(s.subrange(0, k) =~= s);
    } else {
        lemma_trim_end_at(s.drop_last(), c, k);
        assert(s.drop_last().subrange(0, k) =~= s.subrange(0, k));
    }
}

/// The characters of `cs` without the leading ones equal to `c`.
pub fn trim_start_chars(cs: &Vec<char>, c: char) -> (r: String)
    ensures
        r@ == trim_start_char(cs@, c),
{
    let mut i: usize = 0;
    while i < cs.len() && cs[i] == c
        invariant
            i <= cs@.len(),
            forall|j: int| 0 <= j < i ==> cs@[j] == c,
        decreases cs@.len() - i,
    {
        i = i + 1;
    }
    proof {
        lemma_trim_start_at(cs@, c, i as int);
    }
    string_of(cs, i, cs.len())
}

/// The characters of `cs` without the ones equal to `c` at either end.
pub fn trim_chars(cs: &Vec<char>, c: char) -> (r: String)
    ensures
        r@ == trim_char(cs@, c),
{
    let mut i: usize = 0;
    while i < cs.len() && cs[i] == c
        invariant
            i <= cs@.len(),
            forall|j: int| 0 <= j < i ==> cs@[j] == c,
        decreases cs@.len() - i,
    {
        i = i + 1;
    }
    proof {
        lemma_trim_start_at(cs@, c, i as int);
    }
    let ghost rest = cs@.subrange(i as int, cs@.len() as int);
    let mut k: usize = cs.len();
    while k > i && cs[k - 1] == c
        invariant
            i <= k <= cs@.len(),
            rest == cs@.subrange(i as int, cs@.len() as int),
            forall|j: int| k <= j < cs@.len() ==> cs@[j] == c,
        decreases k,
    {
        k = k - 1;
    }
    proof {
        lemma_trim_end_at(rest, c, k - i);
        assert(rest.subrange(0, k - i) =~= cs@.subrange(i as int, k as int));
    }
    string_of(cs, i, k)
}

// ---------------------------------------------------------------------------
// Case conversion
// ---------------------------------------------------------------------------
/// The text built by the separated-case scan of `s` before trimming, and
/// whether the scan's last step emitted a separator for a non-alphanumeric
/// character.
pub open spec fn separated_scan(s: Seq<char>, sep: char) -> (Seq<char>, bool)
    decreases s.len(),
{
    if s.len() == 0 {
        (Seq::empty(), false)
    } else {
        let (out, last_was_separator) = separated_scan(s.drop_last(), sep);
        let ch = s.last();
        let index = s.len() - 1;
        if is_ascii_alnum(ch) {
            if is_ascii_upper(ch) && index > 0 && !last_was_separator && !(out.len() > 0
                && out.last() == sep) {
                (out.push(sep).push(ascii_lower(ch)), false)
            } else {
                (out.push(ascii_lower(ch)), false)
            }
        } else if out.len() > 0 && !last_was_separator {
            (out.push(sep), true)
        } else {
            (out, last_was_separator)
        }
    }
}

/// `s` in lower case, with `sep` between words: a word starts at an ASCII
/// upper-case letter, and a run of other characters than ASCII letters and
/// digits (non-ASCII ones among them) stands between two words as one `sep`.
pub open spec fn separated_case(s: Seq<char>, sep: char) -> Seq<char> {
    trim_char(separated_scan(s, sep).0, sep)
}

fn to_separated_case(name: &str, separator: char) -> (r: String)
    ensures
        r@ == separated_case(name@, separator),
{
    let cs = chars_of(name);
    let mut out: Vec<char> = Vec::new();
    let mut last_was_separator = false;
    let mut index: usize = 0;
    while index < cs.len()
        invariant
            index <= cs@.len(),
            (out@, last_was_separator) == separated_scan(cs@.take(index as int), separator),
        decreases cs@.len() - index,
    {
        let ch = cs[index];
        assert(cs@.take(index + 1).drop_last() =~= cs@.take(index as int));
        if char_is_ascii_alnum(ch) {
            if char_is_ascii_upper(ch) {
                if index > 0 && !last_was_separator && !(out.len() > 0 && out[out.len() - 1]
                    == separator) {
                    out.push(separator);
                }
                out.push(char_to_ascii_lower(ch));
            } else {
                out.push(char_to_ascii_lower(ch));
            }
            last_was_separator = false;
        } else if out.len() > 0 && !last_was_separator {
            out.push(separator);
            last_was_separator = true;
        }
        index = index + 1;
    }
    assert(cs@.take(cs@.len() as int) =~= cs@);
    trim_chars(&out, separator)
}

/// `name` in snake case: lower-case ASCII words joined by `_`.
pub fn to_snake_case(name: &str) -> (r: String)
    ensures
        r@ == separated_case(name@, '_'),
{
    to_separated_case(name, '_')
}

/// `name` in kebab case: lower-case ASCII words joined by `-`.
pub fn to_kebab_case(name: &str) -> (r: String)
    ensures
        r@ == separated_case(name@, '-'),
{
    to_separated_case(name, '-')
}

/// The Pascal-case scan of `s`: the text so far and whether the next
/// alphanumeric character starts a new word.
pub open spec fn pascal_scan(s: Seq<char>) -> (Seq<char>, bool)
    decreases s.len(),
{
    if s.len() == 0 {
        (Seq::empty(), true)
    } else {
        let (out, new_word) = pascal_scan(s.drop_last());
        let ch = s.last();
        if is_ascii_alnum(ch) {
            if new_word {
                (out.push(ascii_upper(ch)), false)
            } else {
                (out.push(ch), false)
            }
        } else {
            (out, true)
        }
    }
}

/// `s` in Pascal case: the ASCII alphanumeric runs of `s`, each starting
/// with an upper-case letter, joined with nothing between them.
pub open spec fn pascal_case(s: Seq<char>) -> Seq<char> {
    pascal_scan(s).0
}

/// `name` in Pascal case.
pub fn to_pascal_case(name: &str) -> (r: String)
    ensures
        r@ == pascal_case(name@),
{
    let cs = chars_of(name);
    let mut out = String::new();
    let mut new_word = true;
    let mut index: usize = 0;
    while index < cs.len()
        invariant
            index <= cs@.len(),
            (out@, new_word) == pascal_scan(cs@.take(index as int)),
        decreases cs@.len() - index,
    {
        let ch = cs[index];
        assert(cs@.take(index + 1).drop_last() =~= cs@.take(index as int));
        if char_is_ascii_alnum(ch) {
            if new_word {
                out.push(char_to_ascii_upper(ch));
                new_word = false;
            } else {
                out.push(ch);
            }
        } else {
            new_word = true;
        }
        index = index + 1;
    }
    assert(cs@.take(cs@.len() as int) =~= cs@);
    out
}


// ---------------------------------------------------------------------------
// Searching and rewriting
// ---------------------------------------------------------------------------
/// `s` with every occurrence of `pat`, taken left to right without overlap,
/// replaced by `rep`.
pub open spec fn replace_all(s: Seq<char>, pat: Seq<char>, rep: Seq<char>) -> Seq<char>
    decreases s.len(),
{
    if s.len() == 0 || pat.len() == 0 {
        s
    } else if pat.len() <= s.len() && s.take(pat.len() as int) == pat {
        rep + replace_all(s.skip(pat.len() as int), pat, rep)
    } else {
        seq![s[0]] + replace_all(s.drop_first(), pat, rep)
    }
}

/// Whether `pat` occurs in `cs` at position `i`.
fn matches_at(cs: &Vec<char>, i: usize, pat: &Vec<char>) -> (r: bool)
    requires
        i <= cs@.len(),
    ensures
        r == (pat@.len() <= cs@.len() - i && cs@.subrange(i as int, i + pat@.len()) == pat@),
{
    let n = cs.len();
    if pat.len() > n - i {
        return false;
    }
    let mut j: usize = 0;
    while j < pat.len()
        invariant
            n == cs@.len(),
            i <= cs@.len(),
            pat@.len() <= cs@.len() - i,
            j <= pat@.len(),
            forall|k: int| 0 <= k < j ==> cs@[i + k] == pat@[k],
        decreases pat@.len() - j,
    {
        assert(i + j < cs@.len());
        if cs[i + j] != pat[j] {
            assert(cs@.subrange(i as int, i + pat@.len())[j as int] != pat@[j as int]);
            return false;
        }
        j = j + 1;
    }
    assert(cs@.subrange(i as int, i + pat@.len()) =~= pat@);
    true
}

/// `s` with every occurrence of `pat` replaced by `rep`.
pub fn replace_str(s: &str, pat: &str, rep: &str) -> (r: String)
    ensures
        r@ == replace_all(s@, pat@, rep@),
{
    let cs = chars_of(s);
    let pc = chars_of(pat);
    if pc.len() == 0 {
        return string_of(&cs, 0, cs.len());
    }
    let mut out = String::new();
    let mut i: usize = 0;
    assert(cs@.skip(0) =~= cs@);
    while i < cs.len()
        invariant
            i <= cs@.len(),
            pc@ == pat@,
            pc@.len() > 0,
            out@ + replace_all(cs@.skip(i as int), pat@, rep@) == replace_all(s@, pat@, rep@),
            cs@ == s@,
        decreases cs@.len() - i,
    {
        let ghost rest = cs@.skip(i as int);
        if matches_at(&cs, i, &pc) {
            assert(rest.take(pc@.len() as int) =~= cs@.subrange(i as int, i + pc@.len()));
            assert(rest.skip(pc@.len() as int) =~= cs@.skip(i + pc@.len()));
            let ghost before = out@;
            push_str(&mut out, rep);
            assert(before + (rep@ + replace_all(rest.skip(pc@.len() as int), pat@, rep@)) =~= out@
                + replace_all(cs@.skip(i + pc@.len()), pat@, rep@));
            i = i + pc.len();
        } else {
            assert(!(pc@.len() <= rest.len() && rest.take(pc@.len() as int) == pc@)) by {
                if pc@.len() <= rest.len() {
                    assert(rest.take(pc@.len() as int) =~= cs@.subrange(i as int, i + pc@.len()));
                }
            }
            assert(rest.drop_first() =~= cs@.skip(i + 1));
            let ghost before = out@;
            out.push(cs[i]);
            assert(before + (seq![rest[0]] + replace_all(rest.drop_first(), pat@, rep@)) =~= out@
                + replace_all(cs@.skip(i + 1), pat@, rep@));
            i = i + 1;
        }
    }
    assert(cs@.skip(i as int) =~= Seq::<char>::empty());
    assert(out@ + Seq::<char>::empty() =~= out@);
    out
}

/// The part of `s` after the last `c`; all of `s` when it holds no `c`.
pub open spec fn after_last(s: Seq<char>, c: char) -> Seq<char>
    decreases s.len(),
{
    if s.len() == 0 {
        s
    } else if s.last() == c {
        Seq::empty()
    } else {
        after_last(s.drop_last(), c).push(s.last())
    }
}

proof fn lemma_after_last(s: Seq<char>, c: char, k: int)
    requires
        0 <= k <= s.len(),
        forall|j: int| k <= j < s.len() ==> s[j] != c,
        k == 0 || s[k - 1] == c,
    ensures
        after_last(s, c) == s.subrange(k, s.len() as int),
    decreases s.len() - k,
{
    if k < s.len() {
        lemma_after_last(s.drop_last(), c, k);
        assert(s.drop_last().subrange(k, s.len() - 1).push(s.last()) =~= s.subrange(k, s.len() as int));
    } else if k > 0 {
        assert(s.subrange(k, s.len() as int) =~= Seq::<char>::empty());
    } else {
        assert(s.subrange(k, s.len() as int) =~= s);
    }
}

/// The characters of `cs` after the last `c`.
pub fn after_last_char(cs: &Vec<char>, c: char) -> (r: String)
    ensures
        r@ == after_last(cs@, c),
{
    let mut k: usize = cs.len();
    while k > 0 && cs[k - 1] != c
        invariant
            k <= cs@.len(),
            forall|j: int| k <= j < cs@.len() ==> cs@[j] != c,
        decreases k,
    {
        k = k - 1;
    }
    proof {
        lemma_after_last(cs@, c, k as int);
    }
    string_of(cs, k, cs.len())
}

/// The pieces of `s` between the occurrences of `c`, in order; the empty
/// string splits into one empty piece.
pub open spec fn split_char(s: Seq<char>, c: char) -> Seq<Seq<char>>
    decreases s.len(),
{
    if s.len() == 0 {
        seq![Seq::empty()]
    } else {
        let pieces = split_char(s.drop_last(), c);
        if s.last() == c {
            pieces.push(Seq::empty())
        } else {
            pieces.update(pieces.len() - 1, pieces.last().push(s.last()))
        }
    }
}

pub proof fn lemma_split_nonempty(s: Seq<char>, c: char)
    ensures
        split_char(s, c).len() >= 1,
    decreases s.len(),
{
    if s.len() > 0 {
        lemma_split_nonempty(s.drop_last(), c);
    }
}

/// The pieces of `s` between the occurrences of `c`.
pub fn split_str(s: &str, c: char) -> (r: Vec<String>)
    ensures
        strings_view(r@) == split_char(s@, c),
{
    let cs = chars_of(s);
    let mut pieces: Vec<String> = Vec::new();
    let mut current = String::new();
    let mut i: usize = 0;
    assert(cs@.take(0) =~= Seq::<char>::empty());
    while i < cs.len()
        invariant
            i <= cs@.len(),
            cs@ == s@,
            strings_view(pieces@).push(current@) == split_char(cs@.take(i as int), c),
        decreases cs@.len() - i,
    {
        proof {
            lemma_split_nonempty(cs@.take(i as int), c);
        }
        assert(cs@.take(i + 1).drop_last() =~= cs@.take(i as int));
        let ghost prev = strings_view(pieces@).push(current@);
        if cs[i] == c {
            let done = current;
            pieces.push(done);
            current = String::new();
            assert(strings_view(pieces@).push(current@) =~= prev.push(Seq::empty()));
        } else {
            current.push(cs[i]);
            assert(strings_view(pieces@).push(current@) =~= prev.update(
                prev.len() - 1,
                prev.last().push(cs@[i as int]),
            ));
        }
        i = i + 1;
    }
    assert(cs@.take(cs@.len() as int) =~= cs@);
    pieces.push(current);
    pieces
}

/// The character sequences of a vector of strings.
pub open spec fn strings_view(v: Seq<String>) -> Seq<Seq<char>> {
    Seq::new(v.len(), |i: int| v[i]@)
}

/// Lexicographic order of character sequences, by code point: the order of
/// `String` comparison.
pub open spec fn seq_lt(a: Seq<char>, b: Seq<char>) -> bool
    decreases a.len(),
{
    if a.len() == 0 {
        b.len() > 0
    } else if b.len() == 0 {
        false
    } else if a[0] != b[0] {
        a[0] < b[0]
    } else {
        seq_lt(a.drop_first(), b.drop_first())
    }
}

proof fn lemma_seq_lt_prefix(a: Seq<char>, b: Seq<char>, i: int)
    requires
        0 <= i <= a.len(),
        i <= b.len(),
        a.take(i) == b.take(i),
    ensures
        seq_lt(a, b) == seq_lt(a.skip(i), b.skip(i)),
    decreases i,
{
    if i > 0 {
        assert(a[0] == a.take(i)[0]);
        assert(b[0] == b.take(i)[0]);
        assert(a.drop_first().take(i - 1) =~= a.take(i).drop_first());
        assert(b.drop_first().take(i - 1) =~= b.take(i).drop_first());
        lemma_seq_lt_prefix(a.drop_first(), b.drop_first(), i - 1);
        assert(a.drop_first().skip(i - 1) =~= a.skip(i));
        assert(b.drop_first().skip(i - 1) =~= b.skip(i));
    } else {
        assert(a.skip(0) =~= a);
        assert(b.skip(0) =~= b);
    }
}

/// Whether `a` sorts before `b`.
pub fn str_lt(a: &str, b: &str) -> (r: bool)
    ensures
        r == seq_lt(a@, b@),
{
    let ca = chars_of(a);
    let cb = chars_of(b);
    let mut i: usize = 0;
    while i < ca.len() && i < cb.len() && ca[i] == cb[i]
        invariant
            i <= ca@.len(),
            i <= cb@.len(),
            ca@.take(i as int) == cb@.take(i as int),
        decreases ca@.len() - i,
    {
        assert(ca@.take(i + 1) =~= ca@.take(i as int).push(ca@[i as int]));
        assert(cb@.take(i + 1) =~= cb@.take(i as int).push(cb@[i as int]));
        i = i + 1;
    }
    proof {
        lemma_seq_lt_prefix(ca@, cb@, i as int);
    }
    if i == ca.len() {
        i < cb.len()
    } else if i == cb.len() {
        false
    } else {
        ca[i] < cb[i]
    }
}


// ---------------------------------------------------------------------------
// The shape of separated-case names
// ---------------------------------------------------------------------------
/// Whether `s` is a separated-case name: lower-case ASCII letters and digits
/// in words joined by single `sep` characters, with no `sep` at either end.
pub open spec fn is_separated_name(s: Seq<char>, sep: char) -> bool {
    &&& forall|i: int| 0 <= i < s.len() ==> (is_ascii_lower(#[trigger] s[i]) || is_ascii_digit(s[i]) || s[i] == sep)
    &&& forall|i: int| 0 <= i < s.len() - 1 ==> !(#[trigger] s[i] == sep && s[i + 1] == sep)
    &&& s.len() > 0 ==> s[0] != sep && s.last() != sep
}

/// The state invariant of the separated-case scan.
spec fn scan_shape(out: Seq<char>, last: bool, sep: char) -> bool {
    &&& forall|i: int| 0 <= i < out.len() ==> (is_ascii_lower(#[trigger] out[i]) || is_ascii_digit(out[i]) || out[i] == sep)
    &&& forall|i: int| 0 <= i < out.len() - 1 ==> !(#[trigger] out[i] == sep && out[i + 1] == sep)
    &&& last ==> out.len() > 0 && out.last() == sep
    &&& !last ==> out.len() == 0 || out.last() != sep
}

proof fn lemma_lower_of_alnum(c: char)
    requires
        is_ascii_alnum(c),
    ensures
        is_ascii_lower(ascii_lower(c)) || is_ascii_digit(ascii_lower(c)),
{
}

proof fn lemma_scan_shape(s: Seq<char>, sep: char)
    requires
        !is_ascii_alnum(sep),
    ensures
        scan_shape(separated_scan(s, sep).0, separated_scan(s, sep).1, sep),
    decreases s.len(),
{
    if s.len() > 0 {
        lemma_scan_shape(s.drop_last(), sep);
        let (out, last) = separated_scan(s.drop_last(), sep);
        let ch = s.last();
        if is_ascii_alnum(ch) {
            lemma_lower_of_alnum(ch);
            let (o2, l2) = separated_scan(s, sep);
            assert forall|i: int| 0 <= i < o2.len() implies (is_ascii_lower(#[trigger] o2[i]) || is_ascii_digit(o2[i]) || o2[i] == sep) by {
                if i < out.len() {
                    assert(o2[i] == out[i]);
                }
            }
            assert forall|i: int| 0 <= i < o2.len() - 1 implies !(#[trigger] o2[i] == sep && o2[i + 1] == sep) by {
                if i + 1 < out.len() {
                    assert(o2[i] == out[i] && o2[i + 1] == out[i + 1]);
                } else if i + 1 == out.len() {
                    assert(o2[i] == out[i]);
                }
            }
        } else if out.len() > 0 && !last {
            let (o2, l2) = separated_scan(s, sep);
            assert forall|i: int| 0 <= i < o2.len() implies (is_ascii_lower(#[trigger] o2[i]) || is_ascii_digit(o2[i]) || o2[i] == sep) by {
                if i < out.len() {
                    assert(o2[i] == out[i]);
                }
            }
            assert forall|i: int| 0 <= i < o2.len() - 1 implies !(#[trigger] o2[i] == sep && o2[i + 1] == sep) by {
                if i + 1 < out.len() {
                    assert(o2[i] == out[i] && o2[i + 1] == out[i + 1]);
                } else {
                    assert(o2[i] == out.last());
                }
            }
        }
    }
}

proof fn lemma_trim_start_shape(s: Seq<char>, c: char)
    ensures
        exists|k: int| 0 <= k <= s.len() && trim_start_char(s, c) == #[trigger] s.subrange(k, s.len() as int),
        trim_start_char(s, c).len() > 0 ==> trim_start_char(s, c)[0] != c,
    decreases s.len(),
{
    if s.len() > 0 && s[0] == c {
        lemma_trim_start_shape(s.drop_first(), c);
        let k = choose|k: int| 0 <= k <= s.drop_first().len() && trim_start_char(s.drop_first(), c) == #[trigger] s.drop_first().subrange(k, s.drop_first().len() as int);
        assert(s.drop_first().subrange(k, s.drop_first().len() as int) =~= s.subrange(k + 1, s.len() as int));
    } else {
        assert(s.subrange(0, s.len() as int) =~= s);
    }
}

proof fn lemma_trim_end_shape(s: Seq<char>, c: char)
    ensures
        exists|k: int| 0 <= k <= s.len() && trim_end_char(s, c) == #[trigger] s.subrange(0, k),
        trim_end_char(s, c).len() > 0 ==> trim_end_char(s, c).last() != c,
    decreases s.len(),
{
    if s.len() > 0 && s.last() == c {
        lemma_trim_end_shape(s.drop_last(), c);
        let k = choose|k: int| 0 <= k <= s.drop_last().len() && trim_end_char(s.drop_last(), c) == #[trigger] s.drop_last().subrange(0, k);
        assert(s.drop_last().subrange(0, k) =~= s.subrange(0, k));
    } else {
        assert(s.subrange(0, s.len() as int) =~= s);
    }
}

/// Trimming keeps the characters and the single separators of the scan.
proof fn lemma_trim_shape(out: Seq<char>, last: bool, sep: char)
    requires
        scan_shape(out, last, sep),
    ensures
        is_separated_name(trim_char(out, sep), sep),
{
    lemma_trim_start_shape(out, sep);
    let a = trim_start_char(out, sep);
    let k1 = choose|k: int| 0 <= k <= out.len() && a == #[trigger] out.subrange(k, out.len() as int);
    lemma_trim_end_shape(a, sep);
    let b = trim_end_char(a, sep);
    let k2 = choose|k: int| 0 <= k <= a.len() && b == #[trigger] a.subrange(0, k);
    assert forall|i: int| 0 <= i < b.len() implies (is_ascii_lower(#[trigger] b[i]) || is_ascii_digit(b[i]) || b[i] == sep) by {
        assert(b[i] == out[k1 + i]);
    }
    assert forall|i: int| 0 <= i < b.len() - 1 implies !(#[trigger] b[i] == sep && b[i + 1] == sep) by {
        assert(b[i] == out[k1 + i]);
        assert(b[i + 1] == out[k1 + i + 1]);
    }
    if b.len() > 0 {
        assert(b[0] == a[0]);
    }
}

/// Every separated-case name is lower-case words of ASCII letters and digits
/// joined by single separators, with no separator at either end.
pub proof fn lemma_separated_case_shape(s: Seq<char>, sep: char)
    requires
        !is_ascii_alnum(sep),
    ensures
        is_separated_name(separated_case(s, sep), sep),
{
    lemma_scan_shape(s, sep);
    lemma_trim_shape(separated_scan(s, sep).0, separated_scan(s, sep).1, sep);
}

proof fn lemma_scan_of_name(t: Seq<char>, sep: char)
    requires
        !is_ascii_alnum(sep),
        forall|i: int| 0 <= i < t.len() ==> (is_ascii_lower(#[trigger] t[i]) || is_ascii_digit(t[i]) || t[i] == sep),
        forall|i: int| 0 <= i < t.len() - 1 ==> !(#[trigger] t[i] == sep && t[i + 1] == sep),
        t.len() > 0 ==> t[0] != sep,
    ensures
        separated_scan(t, sep) == (t, t.len() > 0 && t.last() == sep),
    decreases t.len(),
{
    if t.len() > 0 {
        let p = t.drop_last();
        assert forall|i: int| 0 <= i < p.len() implies (is_ascii_lower(#[trigger] p[i]) || is_ascii_digit(p[i]) || p[i] == sep) by {
            assert(p[i] == t[i]);
        }
        assert forall|i: int| 0 <= i < p.len() - 1 implies !(#[trigger] p[i] == sep && p[i + 1] == sep) by {
            assert(p[i] == t[i] && p[i + 1] == t[i + 1]);
        }
        lemma_scan_of_name(p, sep);
        let ch = t.last();
        if ch == sep {
            if p.len() > 0 {
                assert(t[t.len() - 2] == p.last());
            }
        }
        assert(p.push(ch) =~= t);
    }
}

/// Converting a separated-case name again gives it back: snake case of a
/// snake-case name, or kebab case of a kebab-case name, is that name.
pub proof fn lemma_separated_case_idempotent(s: Seq<char>, sep: char)
    requires
        !is_ascii_alnum(sep),
    ensures
        separated_case(separated_case(s, sep), sep) == separated_case(s, sep),
{
    let t = separated_case(s, sep);
    lemma_separated_case_shape(s, sep);
    lemma_scan_of_name(t, sep);
    if t.len() > 0 {
        lemma_trim_start_at(t, sep, 0);
        assert(t.subrange(0, t.len() as int) =~= t);
        lemma_trim_end_at(t, sep, t.len() as int);
    } else {
        assert(trim_start_char(t, sep) == t);
    }
}


/// Whether `s` is a Pascal-case name: ASCII letters and digits only, not
/// starting with a lower-case letter.
pub open spec fn is_pascal_name(s: Seq<char>) -> bool {
    &&& forall|i: int| 0 <= i < s.len() ==> is_ascii_alnum(#[trigger] s[i])
    &&& s.len() > 0 ==> !is_ascii_lower(s[0])
}

proof fn lemma_upper_of_alnum(c: char)
    requires
        is_ascii_alnum(c),
    ensures
        is_ascii_alnum(ascii_upper(c)),
        !is_ascii_lower(ascii_upper(c)),
{
}

proof fn lemma_pascal_scan_shape(s: Seq<char>)
    ensures
        is_pascal_name(pascal_scan(s).0),
        pascal_scan(s).0.len() == 0 ==> pascal_scan(s).1,
    decreases s.len(),
{
    if s.len() > 0 {
        lemma_pascal_scan_shape(s.drop_last());
        let (out, new_word) = pascal_scan(s.drop_last());
        let ch = s.last();
        if is_ascii_alnum(ch) {
            lemma_upper_of_alnum(ch);
            let o2 = pascal_scan(s).0;
            assert forall|i: int| 0 <= i < o2.len() implies is_ascii_alnum(#[trigger] o2[i]) by {
                if i < out.len() {
                    assert(o2[i] == out[i]);
                }
            }
            if out.len() > 0 {
                assert(o2[0] == out[0]);
            }
        }
    }
}

/// Pascal case holds only ASCII letters and digits, and does not start with
/// a lower-case letter.
pub proof fn lemma_pascal_case_shape(s: Seq<char>)
    ensures
        is_pascal_name(pascal_case(s)),
{
    lemma_pascal_scan_shape(s);
}

proof fn lemma_pascal_scan_of_name(t: Seq<char>)
    requires
        is_pascal_name(t),
    ensures
        pascal_scan(t) == (t, t.len() == 0),
    decreases t.len(),
{
    if t.len() > 0 {
        let p = t.drop_last();
        assert forall|i: int| 0 <= i < p.len() implies is_ascii_alnum(#[trigger] p[i]) by {
            assert(p[i] == t[i]);
        }
        if p.len() > 0 {
            assert(p[0] == t[0]);
        }
        lemma_pascal_scan_of_name(p);
        assert(is_ascii_alnum(t[t.len() - 1]));
        assert(p.push(t.last()) =~= t);
    }
}

/// Converting a Pascal-case name to Pascal case again gives it back.
pub proof fn lemma_pascal_case_idempotent(s: Seq<char>)
    ensures
        pascal_case(pascal_case(s)) == pascal_case(s),
{
    lemma_pascal_case_shape(s);
    lemma_pascal_scan_of_name(pascal_case(s));
}

// ---------------------------------------------------------------------------
// Separated cases with different separators, and Pascal case of them
// ---------------------------------------------------------------------------
/// `t` with every `a` replaced by `b`.
pub open spec fn swap_sep(t: Seq<char>, a: char, b: char) -> Seq<char> {
    Seq::new(t.len(), |i: int| if t[i] == a { b } else { t[i] })
}

/// Whether every character of `t` is an ASCII letter or digit, or `a`.
spec fn word_chars(t: Seq<char>, a: char) -> bool {
    forall|i: int| 0 <= i < t.len() ==> is_ascii_alnum(#[trigger] t[i]) || t[i] == a
}

proof fn lemma_scan_swap(s: Seq<char>, a: char, b: char)
    requires
        !is_ascii_alnum(a),
        !is_ascii_alnum(b),
    ensures
        separated_scan(s, b).0 == swap_sep(separated_scan(s, a).0, a, b),
        separated_scan(s, b).1 == separated_scan(s, a).1,
    decreases s.len(),
{
    if s.len() > 0 {
        let p = s.drop_last();
        lemma_scan_swap(p, a, b);
        lemma_scan_shape(p, a);
        let (oa, la) = separated_scan(p, a);
        let ob = separated_scan(p, b).0;
        let ch = s.last();
        if oa.len() > 0 {
            assert(ob.last() == (if oa.last() == a { b } else { oa.last() }));
            if oa.last() != a {
                assert(is_ascii_lower(oa.last()) || is_ascii_digit(oa.last()));
            }
        }
        if is_ascii_alnum(ch) {
            lemma_lower_of_alnum(ch);
            assert(swap_sep(oa.push(a).push(ascii_lower(ch)), a, b) =~= ob.push(b).push(ascii_lower(ch)));
            assert(swap_sep(oa.push(ascii_lower(ch)), a, b) =~= ob.push(ascii_lower(ch)));
        } else {
            assert(swap_sep(oa.push(a), a, b) =~= ob.push(b));
        }
    }
}

proof fn lemma_trim_start_swap(t: Seq<char>, a: char, b: char)
    requires
        !is_ascii_alnum(b),
        word_chars(t, a),
    ensures
        trim_start_char(swap_sep(t, a, b), b) == swap_sep(trim_start_char(t, a), a, b),
        word_chars(trim_start_char(t, a), a),
    decreases t.len(),
{
    let u = swap_sep(t, a, b);
    if t.len() > 0 {
        assert(u[0] == (if t[0] == a { b } else { t[0] }));
        if t[0] == a {
            assert(u.drop_first() =~= swap_sep(t.drop_first(), a, b));
            assert(word_chars(t.drop_first(), a)) by {
                assert forall|i: int| 0 <= i < t.drop_first().len() implies is_ascii_alnum(
                    #[trigger] t.drop_first()[i],
                ) || t.drop_first()[i] == a by {
                    assert(t.drop_first()[i] == t[i + 1]);
                }
            }
            lemma_trim_start_swap(t.drop_first(), a, b);
        } else {
            assert(is_ascii_alnum(t[0]));
        }
    }
}

proof fn lemma_trim_end_swap(t: Seq<char>, a: char, b: char)
    requires
        !is_ascii_alnum(b),
        word_chars(t, a),
    ensures
        trim_end_char(swap_sep(t, a, b), b) == swap_sep(trim_end_char(t, a), a, b),
    decreases t.len(),
{
    let u = swap_sep(t, a, b);
    if t.len() > 0 {
        assert(u.last() == (if t.last() == a { b } else { t.last() }));
        if t.last() == a {
            assert(u.drop_last() =~= swap_sep(t.drop_last(), a, b));
            assert(word_chars(t.drop_last(), a)) by {
                assert forall|i: int| 0 <= i < t.drop_last().len() implies is_ascii_alnum(
                    #[trigger] t.drop_last()[i],
                ) || t.drop_last()[i] == a by {
                    assert(t.drop_last()[i] == t[i]);
                }
            }
            lemma_trim_end_swap(t.drop_last(), a, b);
        } else {
            assert(is_ascii_alnum(t[t.len() - 1]));
        }
    }
}

/// The separated case of a name with one separator is that with another,
/// the one separator replaced by the other: kebab case is snake case with
/// each `_` made a `-`.
pub proof fn lemma_separated_case_swap(s: Seq<char>, a: char, b: char)
    requires
        !is_ascii_alnum(a),
        !is_ascii_alnum(b),
    ensures
        separated_case(s, b) == swap_sep(separated_case(s, a), a, b),
{
    lemma_scan_swap(s, a, b);
    lemma_scan_shape(s, a);
    let oa = separated_scan(s, a).0;
    assert(word_chars(oa, a)) by {
        assert forall|i: int| 0 <= i < oa.len() implies is_ascii_alnum(#[trigger] oa[i]) || oa[i] == a by {
            assert(is_ascii_lower(oa[i]) || is_ascii_digit(oa[i]) || oa[i] == a);
        }
    }
    lemma_trim_start_swap(oa, a, b);
    lemma_trim_end_swap(trim_start_char(oa, a), a, b);
}

/// Kebab case is snake case with each `_` made a `-`.
pub proof fn lemma_kebab_is_snake_with_hyphens(s: Seq<char>)
    ensures
        separated_case(s, '-') == swap_sep(separated_case(s, '_'), '_', '-'),
{
    lemma_separated_case_swap(s, '_', '-');
}

proof fn lemma_pascal_new_word(t: Seq<char>)
    ensures
        pascal_scan(t).1 == (t.len() == 0 || !is_ascii_alnum(t.last())),
{
}

proof fn lemma_case_round_trip(c: char)
    requires
        is_ascii_alnum(c),
    ensures
        ascii_upper(ascii_lower(c)) == ascii_upper(c),
        is_ascii_upper(c) ==> ascii_upper(ascii_lower(c)) == c && ascii_upper(c) == c,
        !is_ascii_upper(c) ==> ascii_lower(c) == c,
{
}

/// Pascal case reads the separated-case scan of a name as it reads the name.
proof fn lemma_pascal_of_scan(s: Seq<char>, sep: char)
    requires
        !is_ascii_alnum(sep),
    ensures
        pascal_scan(separated_scan(s, sep).0) == pascal_scan(s),
        pascal_scan(s).1 == (separated_scan(s, sep).0.len() == 0 || separated_scan(s, sep).1),
    decreases s.len(),
{
    if s.len() > 0 {
        let p = s.drop_last();
        lemma_pascal_of_scan(p, sep);
        lemma_scan_shape(p, sep);
        let (k, last) = separated_scan(p, sep);
        let (pp, nw) = pascal_scan(p);
        let ch = s.last();
        lemma_pascal_new_word(k);
        if k.len() > 0 && !last {
            assert(is_ascii_lower(k.last()) || is_ascii_digit(k.last()));
        }
        if p.len() == 0 {
            assert(k.len() == 0);
        }
        if is_ascii_alnum(ch) {
            lemma_case_round_trip(ch);
            lemma_lower_of_alnum(ch);
            let lc = ascii_lower(ch);
            let up = if nw { ascii_upper(ch) } else { ch };
            assert(pascal_scan(s) == (pp.push(up), false));
            if is_ascii_upper(ch) && s.len() - 1 > 0 && !last && !(k.len() > 0 && k.last() == sep) {
                let k2 = k.push(sep);
                assert(k2.drop_last() =~= k);
                assert(pascal_scan(k2) == (pp, true));
                let k3 = k2.push(lc);
                assert(k3.drop_last() =~= k2);
                assert(separated_scan(s, sep).0 == k3);
                assert(pascal_scan(k3) == (pp.push(ascii_upper(lc)), false));
            } else {
                let k3 = k.push(lc);
                assert(k3.drop_last() =~= k);
                assert(separated_scan(s, sep).0 == k3);
                assert(pascal_scan(k3) == (pp.push(if nw { ascii_upper(lc) } else { lc }), false));
            }
        } else if k.len() > 0 && !last {
            let k2 = k.push(sep);
            assert(k2.drop_last() =~= k);
            assert(separated_scan(s, sep).0 == k2);
            assert(pascal_scan(k2) == (pp, true));
        } else {
            assert(separated_scan(s, sep).0 == k);
        }
    }
}

proof fn lemma_pascal_skip_first(t: Seq<char>)
    requires
        t.len() > 0,
        !is_ascii_alnum(t[0]),
    ensures
        pascal_scan(t) == pascal_scan(t.drop_first()),
    decreases t.len(),
{
    if t.len() > 1 {
        let p = t.drop_last();
        assert(p[0] == t[0]);
        lemma_pascal_skip_first(p);
        let q = t.drop_first();
        assert(p.drop_first() =~= q.drop_last());
        assert(q.last() == t.last());
        assert(pascal_scan(q) == pascal_scan(t));
    } else {
        assert(t.drop_first() =~= Seq::<char>::empty());
        assert(t.drop_last() =~= Seq::<char>::empty());
    }
}

proof fn lemma_pascal_trim_start(t: Seq<char>, c: char)
    requires
        !is_ascii_alnum(c),
    ensures
        pascal_scan(trim_start_char(t, c)) == pascal_scan(t),
    decreases t.len(),
{
    if t.len() > 0 && t[0] == c {
        lemma_pascal_skip_first(t);
        lemma_pascal_trim_start(t.drop_first(), c);
    }
}

proof fn lemma_pascal_trim_end(t: Seq<char>, c: char)
    requires
        !is_ascii_alnum(c),
    ensures
        pascal_scan(trim_end_char(t, c)).0 == pascal_scan(t).0,
    decreases t.len(),
{
    if t.len() > 0 && t.last() == c {
        lemma_pascal_trim_end(t.drop_last(), c);
    }
}

/// Pascal case of the kebab (or snake) case of a name is the Pascal case of
/// the name.
pub proof fn lemma_pascal_of_separated_case(s: Seq<char>, sep: char)
    requires
        !is_ascii_alnum(sep),
    ensures
        pascal_case(separated_case(s, sep)) == pascal_case(s),
{
    lemma_pascal_of_scan(s, sep);
    let k = separated_scan(s, sep).0;
    lemma_pascal_trim_start(k, sep);
    lemma_pascal_trim_end(trim_start_char(k, sep), sep);
}

// ---------------------------------------------------------------------------
// The order of names
// ---------------------------------------------------------------------------
/// No name sorts before itself.
pub proof fn lemma_seq_lt_irreflexive(a: Seq<char>)
    ensures
        !seq_lt(a, a),
    decreases a.len(),
{
    if a.len() > 0 {
        lemma_seq_lt_irreflexive(a.drop_first());
    }
}

/// Of two different names, one sorts before the other, and not both ways.
pub proof fn lemma_seq_lt_total(a: Seq<char>, b: Seq<char>)
    ensures
        a != b ==> seq_lt(a, b) || seq_lt(b, a),
        !(seq_lt(a, b) && seq_lt(b, a)),
    decreases a.len(),
{
    if a.len() > 0 && b.len() > 0 {
        if a[0] == b[0] {
            lemma_seq_lt_total(a.drop_first(), b.drop_first());
            if a != b {
                assert(a =~= seq![a[0]] + a.drop_first());
                assert(b =~= seq![b[0]] + b.drop_first());
            }
        }
    } else if a.len() == 0 && b.len() == 0 {
        assert(a =~= b);
    }
}

/// The order of names is transitive.
pub proof fn lemma_seq_lt_transitive(a: Seq<char>, b: Seq<char>, c: Seq<char>)
    requires
        seq_lt(a, b),
        seq_lt(b, c),
    ensures
        seq_lt(a, c),
    decreases a.len(),
{
    if a.len() > 0 && b.len() > 0 && c.len() > 0 {
        if a[0] == b[0] && b[0] == c[0] {
            lemma_seq_lt_transitive(a.drop_first(), b.drop_first(), c.drop_first());
        }
    }
}

} // verus!
