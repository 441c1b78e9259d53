//! Small verified helpers on characters and strings.

use vstd::prelude::*;

verus! {

/// The characters of a string slice, in order.
pub fn chars_of(s: &str) -> (r: Vec<char>)
    ensures
        r@ == s@,
{
    let mut v: Vec<char> = Vec::new();
    for c in it: s.chars()
        invariant
            v@ == it.seq().take(it.index() as int),
            it.seq() == s@,
    {
        v.push(c);
    }
    v
}

/// `String::push`: appends one character.
#[verifier::external_body]
pub(crate) fn push_char(s: &mut String, c: char)
    ensures
        final(s)@ == old(s)@.push(c),
{
    s.push(c);
}

/// Appends the characters `cs[start..end]` to `s`.
pub fn push_range(s: &mut String, cs: &Vec<char>, start: usize, end: usize)
    requires
        start <= end <= cs@.len(),
    ensures
        final(s)@ == old(s)@ + cs@.subrange(start as int, end as int),
{
    let mut i = start;
    while i < end
        invariant
            start <= i <= end <= cs@.len(),
            s@ == old(s)@ + cs@.subrange(start as int, i as int),
        decreases end - i,
    {
        push_char(s, cs[i]);
        assert(cs@.subrange(start as int, i + 1) == cs@.subrange(start as int, i as int).push(
            cs@[i as int],
        ));
        i = i + 1;
    }
}

/// A new string holding the characters `cs[start..end]`.
pub fn string_from_range(cs: &Vec<char>, start: usize, end: usize) -> (r: String)
    requires
        start <= end <= cs@.len(),
    ensures
        r@ == cs@.subrange(start as int, end as int),
{
    let mut s = String::new();
    push_range(&mut s, cs, start, end);
    s
}

/// Whether `cs[start..end]` spells exactly `word`.
pub fn range_equals(cs: &Vec<char>, start: usize, end: usize, word: &Vec<char>) -> (r: bool)
    requires
        start <= end <= cs@.len(),
    ensures
        r == (cs@.subrange(start as int, end as int) == word@),
{
    if end - start != word.len() {
        return false;
    }
    let mut i: usize = 0;
    while i < word.len()
        invariant
            start <= end <= cs@.len(),
            end - start == word@.len(),
            0 <= i <= word@.len(),
            forall|k: int| 0 <= k < i ==> cs@[start + k] == word@[k],
        decreases word@.len() - i,
    {
        if cs[start + i] != word[i] {
            assert(cs@.subrange(start as int, end as int)[i as int] != word@[i as int]);
            return false;
        }
        i = i + 1;
    }
    assert(cs@.subrange(start as int, end as int) =~= word@);
    true
}

/// The decimal digit for `d < 10`.
pub open spec fn digit_char(d: nat) -> char {
    if d == 0 { '0' }
    else if d == 1 { '1' }
    else if d == 2 { '2' }
    else if d == 3 { '3' }
    else if d == 4 { '4' }
    else if d == 5 { '5' }
    else if d == 6 { '6' }
    else if d == 7 { '7' }
    else if d == 8 { '8' }
    else { '9' }
}

/// The decimal notation of `n`, without leading zeros ("0" for zero).
pub open spec fn decimal(n: nat) -> Seq<char>
    decreases n,
{
    if n < 10 {
        seq![digit_char(n)]
    } else {
        decimal(n / 10).push(digit_char(n % 10))
    }
}

fn digit(d: usize) -> (c: char)
    requires
        d < 10,
    ensures
        c == digit_char(d as nat),
{
    if d == 0 { '0' }
    else if d == 1 { '1' }
    else if d == 2 { '2' }
    else if d == 3 { '3' }
    else if d == 4 { '4' }
    else if d == 5 { '5' }
    else if d == 6 { '6' }
    else if d == 7 { '7' }
    else if d == 8 { '8' }
    else { '9' }
}

/// Appends the decimal notation of `n` to `s`.
pub fn push_decimal(s: &mut String, n: usize)
    ensures
        final(s)@ == old(s)@ + decimal(n as nat),
    decreases n,
{
    if n < 10 {
        push_char(s, digit(n));
        assert(decimal(n as nat) == seq![digit_char(n as nat)]);
    } else {
        push_decimal(s, n / 10);
        push_char(s, digit(n % 10));
    }
}


/// The parts joined with `sep` between neighbours.
pub open spec fn join(parts: Seq<Seq<char>>, sep: Seq<char>) -> Seq<char>
    decreases parts.len(),
{
    if parts.len() == 0 {
        Seq::empty()
    } else if parts.len() == 1 {
        parts[0]
    } else {
        join(parts.drop_last(), sep) + sep + parts.last()
    }
}

pub open spec fn strings_view(v: Seq<String>) -> Seq<Seq<char>> {
    v.map_values(|s: String| s@)
}

/// Appends the strings of `parts` joined with `sep` to `out`.
pub fn push_joined(out: &mut String, parts: &Vec<String>, sep: &str)
    ensures
        final(out)@ == old(out)@ + join(strings_view(parts@), sep@),
{
    let mut i: usize = 0;
    while i < parts.len()
        invariant
            0 <= i <= parts@.len(),
            out@ == old(out)@ + join(strings_view(parts@.take(i as int)), sep@),
        decreases parts@.len() - i,
    {
        let ghost prev = strings_view(parts@.take(i as int));
        let ghost next = strings_view(parts@.take(i + 1));
        assert(next.drop_last() =~= prev);
        assert(next.last() == parts@[i as int]@);
        if i != 0 {
            out.append(sep);
        } else {
            assert(prev =~= Seq::<Seq<char>>::empty());
        }
        out.append(parts[i].as_str());
        i = i + 1;
    }
    assert(parts@.take(parts@.len() as int) =~= parts@);
}


/// The characters with the Unicode `White_Space` property.
pub open spec fn spec_is_whitespace(c: char) -> bool {
    ||| '\u{9}' <= c && c <= '\u{d}'
    ||| c == ' '
    ||| c == '\u{85}'
    ||| c == '\u{a0}'
    ||| c == '\u{1680}'
    ||| '\u{2000}' <= c && c <= '\u{200a}'
    ||| c == '\u{2028}'
    ||| c == '\u{2029}'
    ||| c == '\u{202f}'
    ||| c == '\u{205f}'
    ||| c == '\u{3000}'
}

/// Whether `c` has the Unicode `White_Space` property, as `char::is_whitespace` decides.
pub fn is_whitespace(c: char) -> (r: bool)
    ensures
        r == spec_is_whitespace(c),
{
    ('\u{9}' <= c && c <= '\u{d}') || c == ' ' || c == '\u{85}' || c == '\u{a0}' || c
        == '\u{1680}' || ('\u{2000}' <= c && c <= '\u{200a}') || c == '\u{2028}' || c
        == '\u{2029}' || c == '\u{202f}' || c == '\u{205f}' || c == '\u{3000}'
}

/// `s` without its leading whitespace.
pub open spec fn trim_start(s: Seq<char>) -> Seq<char>
    decreases s.len(),
{
    if s.len() > 0 && spec_is_whitespace(s[0]) {
        trim_start(s.drop_first())
    } else {
        s
    }
}

/// `s` without its trailing whitespace.
pub open spec fn trim_end(s: Seq<char>) -> Seq<char>
    decreases s.len(),
{
    if s.len() > 0 && spec_is_whitespace(s.last()) {
        trim_end(s.drop_last())
    } else {
        s
    }
}

/// `s` without leading and trailing whitespace.
pub open spec fn trim(s: Seq<char>) -> Seq<char> {
    trim_end(trim_start(s))
}

/// The pieces of `s[i..]` between occurrences of `sep`, after the piece `cur`
/// already begun and the pieces `acc` already finished.
pub open spec fn split_from(
    s: Seq<char>,
    sep: char,
    i: int,
    cur: Seq<char>,
    acc: Seq<Seq<char>>,
) -> Seq<Seq<char>>
    decreases s.len() - i,
{
    if i < 0 || i >= s.len() {
        acc.push(cur)
    } else if s[i] == sep {
        split_from(s, sep, i + 1, Seq::empty(), acc.push(cur))
    } else {
        split_from(s, sep, i + 1, cur.push(s[i]), acc)
    }
}

/// The pieces of `s` between occurrences of `sep` (one more than there are
/// separators; pieces may be empty).
pub open spec fn split_on(s: Seq<char>, sep: char) -> Seq<Seq<char>> {
    split_from(s, sep, 0, Seq::empty(), Seq::empty())
}

/// The words of `s[i..]` (maximal runs of non-whitespace), after the word
/// `cur` already begun and the words `acc` already finished.
pub open spec fn words_from(s: Seq<char>, i: int, cur: Seq<char>, acc: Seq<Seq<char>>) -> Seq<
    Seq<char>,
>
    decreases s.len() - i,
{
    let acc2 = if cur.len() > 0 {
        acc.push(cur)
    } else {
        acc
    };
    if i < 0 || i >= s.len() {
        acc2
    } else if spec_is_whitespace(s[i]) {
        words_from(s, i + 1, Seq::empty(), acc2)
    } else {
        words_from(s, i + 1, cur.push(s[i]), acc)
    }
}

/// The whitespace-separated words of `s`.
pub open spec fn words(s: Seq<char>) -> Seq<Seq<char>> {
    words_from(s, 0, Seq::empty(), Seq::empty())
}

proof fn lemma_words_from_acc(s: Seq<char>, i: int, cur: Seq<char>, acc: Seq<Seq<char>>)
    requires
        0 <= i <= s.len(),
    ensures
        words_from(s, i, cur, acc) == acc + words_from(s, i, cur, Seq::empty()),
    decreases s.len() - i,
{
    let e = Seq::<Seq<char>>::empty();
    if i >= s.len() {
        if cur.len() > 0 {
            assert(acc.push(cur) =~= acc + e.push(cur));
        } else {
            assert(acc =~= acc + e);
        }
    } else if spec_is_whitespace(s[i]) {
        let acc2 = if cur.len() > 0 { acc.push(cur) } else { acc };
        let e2 = if cur.len() > 0 { e.push(cur) } else { e };
        lemma_words_from_acc(s, i + 1, Seq::empty(), acc2);
        lemma_words_from_acc(s, i + 1, Seq::empty(), e2);
        assert(acc2 =~= acc + e2);
        assert((acc + e2) + words_from(s, i + 1, Seq::empty(), e) =~= acc + (e2 + words_from(
            s,
            i + 1,
            Seq::empty(),
            e,
        )));
    } else {
        lemma_words_from_acc(s, i + 1, cur.push(s[i]), acc);
    }
}

proof fn lemma_words_prefix(
    a: Seq<char>,
    c: char,
    b: Seq<char>,
    i: int,
    cur: Seq<char>,
    acc: Seq<Seq<char>>,
)
    requires
        spec_is_whitespace(c),
        0 <= i <= a.len(),
    ensures
        words_from(a + seq![c] + b, i, cur, acc) == words_from(
            a + seq![c] + b,
            a.len() + 1 as int,
            Seq::empty(),
            words_from(a, i, cur, acc),
        ),
    decreases a.len() - i,
{
    let t = a + seq![c] + b;
    if i == a.len() {
        assert(t[i] == c);
    } else {
        assert(t[i] == a[i]);
        if spec_is_whitespace(a[i]) {
            let acc2 = if cur.len() > 0 { acc.push(cur) } else { acc };
            lemma_words_prefix(a, c, b, i + 1, Seq::empty(), acc2);
        } else {
            lemma_words_prefix(a, c, b, i + 1, cur.push(a[i]), acc);
        }
    }
}

proof fn lemma_words_suffix(
    a: Seq<char>,
    c: char,
    b: Seq<char>,
    j: int,
    cur: Seq<char>,
    acc: Seq<Seq<char>>,
)
    requires
        0 <= j <= b.len(),
    ensures
        words_from(a + seq![c] + b, a.len() + 1 + j, cur, acc) == words_from(b, j, cur, acc),
    decreases b.len() - j,
{
    let t = a + seq![c] + b;
    if j < b.len() {
        assert(t[a.len() + 1 + j] == b[j]);
        if spec_is_whitespace(b[j]) {
            let acc2 = if cur.len() > 0 { acc.push(cur) } else { acc };
            lemma_words_suffix(a, c, b, j + 1, Seq::empty(), acc2);
        } else {
            lemma_words_suffix(a, c, b, j + 1, cur.push(b[j]), acc);
        }
    }
}

proof fn lemma_words_run(s: Seq<char>, i: int, cur: Seq<char>, acc: Seq<Seq<char>>)
    requires
        0 <= i <= s.len(),
        cur.len() + s.len() - i > 0,
        forall|k: int| 0 <= k < s.len() ==> !spec_is_whitespace(#[trigger] s[k]),
    ensures
        words_from(s, i, cur, acc) == acc.push(cur + s.subrange(i, s.len() as int)),
    decreases s.len() - i,
{
    if i < s.len() {
        assert(!spec_is_whitespace(s[i]));
        lemma_words_run(s, i + 1, cur.push(s[i]), acc);
        assert(cur.push(s[i]) + s.subrange(i + 1, s.len() as int) =~= cur + s.subrange(
            i,
            s.len() as int,
        ));
    } else {
        assert(cur + s.subrange(i, s.len() as int) =~= cur);
    }
}

/// A text without any character has no words.
pub proof fn lemma_words_empty()
    ensures
        words(Seq::empty()) == Seq::<Seq<char>>::empty(),
{
}

/// A non-empty text without whitespace is one word, itself.
pub proof fn lemma_words_one(s: Seq<char>)
    requires
        s.len() > 0,
        forall|k: int| 0 <= k < s.len() ==> !spec_is_whitespace(#[trigger] s[k]),
    ensures
        words(s) == seq![s],
{
    lemma_words_run(s, 0, Seq::empty(), Seq::empty());
    assert(Seq::<char>::empty() + s.subrange(0, s.len() as int) =~= s);
    assert(Seq::<Seq<char>>::empty().push(s) =~= seq![s]);
}

/// A whitespace character splits the words: the words of `a`, a whitespace
/// character and `b` are the words of `a` followed by the words of `b`.
pub proof fn lemma_words_split(a: Seq<char>, c: char, b: Seq<char>)
    requires
        spec_is_whitespace(c),
    ensures
        words(a + seq![c] + b) == words(a) + words(b),
{
    let e = Seq::<Seq<char>>::empty();
    lemma_words_prefix(a, c, b, 0, Seq::empty(), e);
    lemma_words_suffix(a, c, b, 0, Seq::empty(), words(a));
    lemma_words_from_acc(b, 0, Seq::empty(), words(a));
}

/// A string from a sequence of characters.
pub fn string_from_chars(cs: &Vec<char>) -> (r: String)
    ensures
        r@ == cs@,
{
    let r = string_from_range(cs, 0, cs.len());
    assert(cs@.subrange(0, cs@.len() as int) =~= cs@);
    r
}

proof fn lemma_trim_start_skip(s: Seq<char>, i: int)
    requires
        0 <= i <= s.len(),
        forall|k: int| 0 <= k < i ==> spec_is_whitespace(#[trigger] s[k]),
    ensures
        trim_start(s) == trim_start(s.subrange(i, s.len() as int)),
    decreases i,
{
    if i > 0 {
        assert(s.drop_first().subrange(i - 1, s.drop_first().len() as int) =~= s.subrange(
            i,
            s.len() as int,
        ));
        assert forall|k: int| 0 <= k < i - 1 implies spec_is_whitespace(#[trigger] s.drop_first()[k]) by {
            assert(s.drop_first()[k] == s[k + 1]);
        }
        lemma_trim_start_skip(s.drop_first(), i - 1);
    } else {
        assert(s.subrange(0, s.len() as int) =~= s);
    }
}

proof fn lemma_trim_end_cut(s: Seq<char>, j: int)
    requires
        0 <= j <= s.len(),
        forall|k: int| j <= k < s.len() ==> spec_is_whitespace(#[trigger] s[k]),
    ensures
        trim_end(s) == trim_end(s.subrange(0, j)),
    decreases s.len() - j,
{
    if j < s.len() {
        assert(s.drop_last().subrange(0, j) =~= s.subrange(0, j));
        assert forall|k: int| j <= k < s.drop_last().len() implies spec_is_whitespace(#[trigger] s.drop_last()[k]) by {
            assert(s.drop_last()[k] == s[k]);
        }
        lemma_trim_end_cut(s.drop_last(), j);
    } else {
        assert(s.subrange(0, j) =~= s);
    }
}

/// The characters of `s` without leading and trailing whitespace, as a string.
pub fn trim_chars(cs: &Vec<char>, start: usize, end: usize) -> (r: String)
    requires
        start <= end <= cs@.len(),
    ensures
        r@ == trim(cs@.subrange(start as int, end as int)),
{
    let ghost s = cs@.subrange(start as int, end as int);
    let mut i = start;
    while i < end && is_whitespace(cs[i])
        invariant
            start <= i <= end <= cs@.len(),
            s == cs@.subrange(start as int, end as int),
            forall|k: int| 0 <= k < i - start ==> spec_is_whitespace(#[trigger] s[k]),
        decreases end - i,
    {
        i = i + 1;
    }
    let ghost t = cs@.subrange(i as int, end as int);
    proof {
        lemma_trim_start_skip(s, i - start);
        assert(s.subrange(i - start, s.len() as int) =~= t);
        if i < end {
            assert(t[0] == cs@[i as int]);
        }
        assert(trim_start(t) == t);
    }
    let mut j = end;
    while j > i && is_whitespace(cs[j - 1])
        invariant
            start <= i <= j <= end <= cs@.len(),
            t == cs@.subrange(i as int, end as int),
            forall|k: int| j - i <= k < t.len() ==> spec_is_whitespace(#[trigger] t[k]),
        decreases j - i,
    {
        j = j - 1;
    }
    proof {
        lemma_trim_end_cut(t, j - i);
        let u = t.subrange(0, j - i);
        assert(u =~= cs@.subrange(i as int, j as int));
        if j > i {
            assert(u.last() == cs@[j - 1]);
        }
        assert(trim_end(u) == u);
    }
    string_from_range(cs, i, j)
}

/// The pieces of `s` between occurrences of `sep`, each trimmed of surrounding whitespace.
pub fn split_trimmed(s: &str, sep: char) -> (r: Vec<String>)
    ensures
        strings_view(r@) == split_on(s@, sep).map_values(|p: Seq<char>| trim(p)),
{
    let cs = chars_of(s);
    let mut pieces: Vec<String> = Vec::new();
    let mut piece_start: usize = 0;
    let mut i: usize = 0;
    let ghost mut acc: Seq<Seq<char>> = Seq::empty();
    assert(strings_view(pieces@) =~= acc.map_values(|p: Seq<char>| trim(p)));
    assert(cs@.subrange(0, 0) =~= Seq::<char>::empty());
    while i < cs.len()
        invariant
            cs@ == s@,
            piece_start <= i <= cs@.len(),
            split_on(s@, sep) == split_from(
                s@,
                sep,
                i as int,
                cs@.subrange(piece_start as int, i as int),
                acc,
            ),
            strings_view(pieces@) == acc.map_values(|p: Seq<char>| trim(p)),
        decreases cs@.len() - i,
    {
        if cs[i] == sep {
            let piece = trim_chars(&cs, piece_start, i);
            let ghost before = pieces@;
            let ghost old_acc = acc;
            pieces.push(piece);
            proof {
                acc = acc.push(cs@.subrange(piece_start as int, i as int));
            }
            assert(strings_view(pieces@) =~= strings_view(before).push(piece@));
            assert(acc.map_values(|p: Seq<char>| trim(p)) =~= old_acc.map_values(|p: Seq<char>| trim(p)).push(piece@));
            assert(strings_view(pieces@) =~= acc.map_values(|p: Seq<char>| trim(p)));
            piece_start = i + 1;
            assert(cs@.subrange(piece_start as int, i + 1) =~= Seq::<char>::empty());
        } else {
            assert(cs@.subrange(piece_start as int, i + 1) =~= cs@.subrange(
                piece_start as int,
                i as int,
            ).push(cs@[i as int]));
        }
        i = i + 1;
    }
    let piece = trim_chars(&cs, piece_start, i);
    let ghost before = pieces@;
    let ghost old_acc = acc;
    pieces.push(piece);
    proof {
        acc = acc.push(cs@.subrange(piece_start as int, i as int));
    }
    assert(strings_view(pieces@) =~= strings_view(before).push(piece@));
    assert(acc.map_values(|p: Seq<char>| trim(p)) =~= old_acc.map_values(|p: Seq<char>| trim(p)).push(piece@));
    assert(strings_view(pieces@) =~= acc.map_values(|p: Seq<char>| trim(p)));
    pieces
}

/// The whitespace-separated words of `s`.
pub fn split_words(s: &str) -> (r: Vec<String>)
    ensures
        strings_view(r@) == words(s@),
{
    let cs = chars_of(s);
    let mut out: Vec<String> = Vec::new();
    let mut start: usize = 0;
    let mut i: usize = 0;
    assert(strings_view(out@) =~= Seq::<Seq<char>>::empty());
    assert(cs@.subrange(0, 0) =~= Seq::<char>::empty());
    while i < cs.len()
        invariant
            cs@ == s@,
            start <= i <= cs@.len(),
            words(s@) == words_from(
                s@,
                i as int,
                cs@.subrange(start as int, i as int),
                strings_view(out@),
            ),
        decreases cs@.len() - i,
    {
        if is_whitespace(cs[i]) {
            if start < i {
                let w = string_from_range(&cs, start, i);
                let ghost before = out@;
                out.push(w);
                assert(strings_view(out@) =~= strings_view(before).push(w@));
            }
            start = i + 1;
            assert(cs@.subrange(start as int, i + 1) =~= Seq::<char>::empty());
        } else {
            assert(cs@.subrange(start as int, i + 1) =~= cs@.subrange(start as int, i as int).push(
                cs@[i as int],
            ));
        }
        i = i + 1;
    }
    if start < i {
        let w = string_from_range(&cs, start, i);
        let ghost before = out@;
        out.push(w);
        assert(strings_view(out@) =~= strings_view(before).push(w@));
    }
    out
}

} // verus!
