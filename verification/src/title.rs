//! Title normalization: lower-case the whole title, then capitalize the
//! first character of every whitespace-separated word and re-join the words
//! with single spaces.

use vstd::prelude::*;

use crate::text::{is_space, is_space_char};

verus! {

/// A character inside the ASCII range.
pub open spec fn is_ascii_char(c: char) -> bool {
    (c as u32) < 128
}

/// All characters of the sequence are ASCII.
pub open spec fn ascii_seq(s: Seq<char>) -> bool {
    forall|i: int| 0 <= i < s.len() ==> is_ascii_char(#[trigger] s[i])
}

/// The ASCII lower-case counterpart of a character.
pub open spec fn ascii_lower_char(c: char) -> char {
    if ('A' as u32) <= (c as u32) <= ('Z' as u32) {
        ((c as u32) + 32) as char
    } else {
        c
    }
}

/// The ASCII upper-case counterpart of a character.
pub open spec fn ascii_upper_char(c: char) -> char {
    if ('a' as u32) <= (c as u32) <= ('z' as u32) {
        ((c as u32) - 32) as char
    } else {
        c
    }
}

/// What `str::to_lowercase` returns on input that is not all ASCII: a
/// function of the characters alone.
pub uninterp spec fn lower_of(s: Seq<char>) -> Seq<char>;

/// What `char::to_uppercase` yields on a character outside ASCII: a function
/// of the character alone.
pub uninterp spec fn upper_of(c: char) -> Seq<char>;

/// The lower-cased form of a character sequence: the ASCII mapping where the
/// whole sequence is ASCII, and what the case-folding routine returns
/// elsewhere.
pub open spec fn lower_str(s: Seq<char>) -> Seq<char> {
    if ascii_seq(s) {
        s.map_values(|c: char| ascii_lower_char(c))
    } else {
        lower_of(s)
    }
}

/// The upper-cased form of one character: its ASCII counterpart for an ASCII
/// character, and what the case-mapping routine yields elsewhere.
pub open spec fn upper_char_seq(c: char) -> Seq<char> {
    if is_ascii_char(c) {
        seq![ascii_upper_char(c)]
    } else {
        upper_of(c)
    }
}

/// Relies on `str::to_lowercase`: the result depends on the characters
/// alone, and on an all-ASCII string it maps `A`..`Z` to `a`..`z` and keeps
/// every other character.
#[verifier::external_body]
fn lowercase(s: &str) -> (r: String)
    ensures
        r@ == lower_str(s@),
        !ascii_seq(s@) ==> r@ == lower_of(s@),
{
    s.to_lowercase()
}

/// Relies on `char::to_uppercase`: the result depends on the character
/// alone, and on an ASCII character it is the single ASCII upper-case
/// counterpart.
#[verifier::external_body]
fn uppercase_char(c: char) -> (r: String)
    ensures
        r@ == upper_char_seq(c),
        !is_ascii_char(c) ==> r@ == upper_of(c),
{
    c.to_uppercase().collect::<String>()
}

/// The length of the longest space-free prefix.
pub open spec fn word_len(s: Seq<char>) -> nat
    decreases s.len(),
{
    if s.len() == 0 || is_space_char(s[0]) {
        0
    } else {
        1 + word_len(s.drop_first())
    }
}

/// The space-free prefix is a prefix: no longer than the sequence, nonempty
/// exactly when the sequence starts with a non-space character, space-free
/// throughout, and ended by a space or by the end of the sequence.
pub proof fn lemma_word_len(s: Seq<char>)
    ensures
        word_len(s) <= s.len(),
        s.len() > 0 && !is_space_char(s[0]) ==> word_len(s) >= 1,
        forall|j: int| 0 <= j < word_len(s) ==> !is_space_char(#[trigger] s[j]),
        word_len(s) < s.len() ==> is_space_char(s[word_len(s) as int]),
    decreases s.len(),
{
    if s.len() > 0 && !is_space_char(s[0]) {
        lemma_word_len(s.drop_first());
        assert(forall|j: int| 0 <= j < s.len() - 1 ==> s.drop_first()[j] == s[j + 1]);
        assert forall|j: int| 0 <= j < word_len(s) implies !is_space_char(s[j]) by {
            if j > 0 {
                assert(s[j] == s.drop_first()[j - 1]);
                assert(!is_space_char(s.drop_first()[j - 1]));
            }
        }
    }
}

/// The exact length of the space-free prefix, given where the first space
/// stands.
pub proof fn lemma_word_len_exact(s: Seq<char>, k: int)
    requires
        0 <= k <= s.len(),
        forall|j: int| 0 <= j < k ==> !is_space_char(#[trigger] s[j]),
        k == s.len() || is_space_char(s[k]),
    ensures
        word_len(s) == k,
    decreases k,
{
    if k > 0 {
        assert(forall|j: int| 0 <= j < s.len() - 1 ==> s.drop_first()[j] == s[j + 1]);
        lemma_word_len_exact(s.drop_first(), k - 1);
    }
}

/// The whitespace-separated words of a sequence, in order, without empties.
pub open spec fn words_of(s: Seq<char>) -> Seq<Seq<char>>
    decreases s.len(),
    via words_of_decreases
{
    if s.len() == 0 {
        Seq::empty()
    } else if is_space_char(s[0]) {
        words_of(s.drop_first())
    } else {
        seq![s.take(word_len(s) as int)] + words_of(s.skip(word_len(s) as int))
    }
}

#[via_fn]
proof fn words_of_decreases(s: Seq<char>) {
    if s.len() > 0 && !is_space_char(s[0]) {
        lemma_word_len(s);
    }
}

/// A word with its first character upper-cased.
pub open spec fn cap_word(w: Seq<char>) -> Seq<char> {
    if w.len() == 0 {
        w
    } else {
        upper_char_seq(w[0]) + w.drop_first()
    }
}

/// Words joined with single spaces.
pub open spec fn join_words(ws: Seq<Seq<char>>) -> Seq<char>
    decreases ws.len(),
{
    if ws.len() == 0 {
        Seq::empty()
    } else if ws.len() == 1 {
        ws[0]
    } else {
        ws[0] + seq![' '] + join_words(ws.drop_first())
    }
}

/// The title-cased form: every word capitalized, words joined by single
/// spaces.
pub open spec fn title_case(s: Seq<char>) -> Seq<char> {
    join_words(words_of(s).map_values(|w: Seq<char>| cap_word(w)))
}

/// The normalized title: lower-cased, then title-cased.
pub open spec fn normalized_title(s: Seq<char>) -> Seq<char> {
    title_case(lower_str(s))
}

/// Appending one word at the end of a join adds a separating space unless
/// the join was empty.
pub proof fn lemma_join_push(ws: Seq<Seq<char>>, w: Seq<char>)
    ensures
        ws.len() == 0 ==> join_words(ws.push(w)) == w,
        ws.len() > 0 ==> join_words(ws.push(w)) == join_words(ws) + seq![' '] + w,
    decreases ws.len(),
{
    let p = ws.push(w);
    if ws.len() == 0 {
        assert(p.len() == 1);
        assert(p[0] == w);
    } else if ws.len() == 1 {
        assert(p.len() == 2);
        assert(p[0] == ws[0]);
        assert(p.drop_first() =~= seq![w]);
        assert(join_words(p.drop_first()) == w);
    } else {
        lemma_join_push(ws.drop_first(), w);
        assert(p.drop_first() =~= ws.drop_first().push(w));
        assert(p[0] == ws[0]);
    }
}

/// The position of the end of the word that starts at `i`.
fn word_end(s: &str, i: usize, n: usize) -> (e: usize)
    requires
        i < n,
        n == s@.len(),
    ensures
        i <= e <= n,
        forall|k: int| i <= k < e ==> !is_space_char(#[trigger] s@[k]),
        e == n || is_space_char(s@[e as int]),
    decreases n - i,
{
    let mut j = i;
    while j < n
        invariant
            i <= j <= n,
            n == s@.len(),
            forall|k: int| i <= k < j ==> !is_space_char(#[trigger] s@[k]),
        decreases n - j,
    {
        if is_space(s.get_char(j)) {
            return j;
        }
        j += 1;
    }
    n
}

/// Splits a string into its whitespace-separated words.
pub fn split_words(s: &str) -> (r: Vec<String>)
    ensures
        r@.map_values(|w: String| w@) == words_of(s@),
{
    let n = s.unicode_len();
    let mut words: Vec<String> = Vec::new();
    let mut i: usize = 0;
    proof {
        assert(s@.skip(0) =~= s@);
        assert(words@.map_values(|w: String| w@) =~= Seq::<Seq<char>>::empty());
    }
    while i < n
        invariant
            i <= n,
            n == s@.len(),
            words_of(s@) == words@.map_values(|w: String| w@) + words_of(s@.skip(i as int)),
        decreases n - i,
    {
        let c = s.get_char(i);
        if is_space(c) {
            proof {
                assert(s@.skip(i as int)[0] == s@[i as int]);
                assert(s@.skip(i as int).drop_first() =~= s@.skip(i + 1));
            }
            i += 1;
        } else {
            let e = word_end(s, i, n);
            let w = String::from_str(s.substring_char(i, e));
            proof {
                let t = s@.skip(i as int);
                assert(t[0] == s@[i as int]);
                assert(forall|k: int| 0 <= k < e - i ==> t[k] == s@[k + i]);
                assert(e - i == t.len() || is_space_char(t[e - i]));
                lemma_word_len_exact(t, e - i);
                assert(t.take(e - i) =~= s@.subrange(i as int, e as int));
                assert(t.skip(e - i) =~= s@.skip(e as int));
                assert(words@.push(w).map_values(|x: String| x@) =~= words@.map_values(
                    |x: String| x@,
                ).push(w@));
            }
            words.push(w);
            i = e;
        }
    }
    proof {
        assert(words_of(s@.skip(n as int)) =~= Seq::<Seq<char>>::empty());
        assert(words@.map_values(|w: String| w@) + Seq::<Seq<char>>::empty() =~= words@.map_values(
            |w: String| w@,
        ));
    }
    words
}

/// Capitalizes the first character of a string, leaving the rest as it
/// stands.
pub fn capitalize_first(s: &str) -> (r: String)
    ensures
        r@ == cap_word(s@),
{
    let n = s.unicode_len();
    if n == 0 {
        let r = String::new();
        proof {
            assert(r@ =~= cap_word(s@));
        }
        return r;
    }
    let first = s.get_char(0);
    let mut r = uppercase_char(first);
    let rest = s.substring_char(1, n);
    r.append(rest);
    proof {
        assert(s@.drop_first() =~= s@.subrange(1, n as int));
    }
    r
}

/// Capitalizes the first character of every whitespace-separated word and
/// joins the words with single spaces.
pub fn capitalize_first_letters(text: &str) -> (r: String)
    ensures
        r@ == title_case(text@),
{
    let words = split_words(text);
    let ghost wviews = words@.map_values(|w: String| w@);
    let ghost capped = wviews.map_values(|w: Seq<char>| cap_word(w));
    let mut r = String::new();
    let mut k: usize = 0;
    proof {
        assert(capped.take(0) =~= Seq::<Seq<char>>::empty());
    }
    while k < words.len()
        invariant
            k <= words.len(),
            wviews == words@.map_values(|w: String| w@),
            capped == wviews.map_values(|w: Seq<char>| cap_word(w)),
            r@ == join_words(capped.take(k as int)),
        decreases words.len() - k,
    {
        if k > 0 {
            r.push(' ');
        }
        let cw = capitalize_first(words[k].as_str());
        r.append(cw.as_str());
        proof {
            assert(capped.take(k as int).push(capped[k as int]) =~= capped.take(k + 1));
            lemma_join_push(capped.take(k as int), capped[k as int]);
            assert(capped[k as int] == cap_word(wviews[k as int]));
            if k > 0 {
                assert(capped.take(k as int).len() > 0);
            }
        }
        k += 1;
    }
    proof {
        assert(capped.take(words@.len() as int) =~= capped);
    }
    r
}

/// The full normalization of a display title: lower-case everything, then
/// capitalize the first character of every word.
pub fn normalize_title(title: &str) -> (r: String)
    ensures
        r@ == normalized_title(title@),
{
    let lowered = lowercase(title);
    capitalize_first_letters(lowered.as_str())
}

/// The ASCII lower-case mapping over a whole sequence.
pub open spec fn low_map(s: Seq<char>) -> Seq<char> {
    s.map_values(|c: char| ascii_lower_char(c))
}

/// Lower-casing keeps the length of the space-free prefix.
proof fn lemma_word_len_low(s: Seq<char>)
    ensures
        word_len(low_map(s)) == word_len(s),
    decreases s.len(),
{
    if s.len() > 0 {
        assert(low_map(s)[0] == ascii_lower_char(s[0]));
        assert(is_space_char(low_map(s)[0]) == is_space_char(s[0]));
        if !is_space_char(s[0]) {
            assert(low_map(s).drop_first() =~= low_map(s.drop_first()));
            lemma_word_len_low(s.drop_first());
        }
    }
}

/// Lower-casing commutes with splitting into words.
proof fn lemma_words_low(s: Seq<char>)
    ensures
        words_of(low_map(s)) == words_of(s).map_values(|w: Seq<char>| low_map(w)),
    decreases s.len(),
{
    let f = |w: Seq<char>| low_map(w);
    let ls = low_map(s);
    if s.len() == 0 {
        assert(words_of(ls) =~= Seq::<Seq<char>>::empty());
        assert(words_of(s).map_values(f) =~= Seq::<Seq<char>>::empty());
        assert(words_of(ls) == words_of(s).map_values(f));
    } else if is_space_char(s[0]) {
        assert(ls[0] == ascii_lower_char(s[0]));
        assert(is_space_char(ls[0]));
        assert(ls.drop_first() =~= low_map(s.drop_first()));
        lemma_words_low(s.drop_first());
    } else {
        assert(ls[0] == ascii_lower_char(s[0]));
        assert(!is_space_char(ls[0]));
        let k = word_len(s) as int;
        lemma_word_len(s);
        lemma_word_len_low(s);
        assert(word_len(ls) == k);
        assert(ls.take(k) =~= low_map(s.take(k)));
        assert(ls.skip(k) =~= low_map(s.skip(k)));
        lemma_words_low(s.skip(k));
        assert(words_of(ls) == seq![low_map(s.take(k))] + words_of(s.skip(k)).map_values(f));
        assert((seq![s.take(k)] + words_of(s.skip(k))).map_values(f) =~= seq![f(s.take(k))]
            + words_of(s.skip(k)).map_values(f));
        assert(f(s.take(k)) == low_map(s.take(k)));
    }
}

/// Lower-casing commutes with joining words.
proof fn lemma_join_low(ws: Seq<Seq<char>>)
    ensures
        low_map(join_words(ws)) == join_words(ws.map_values(|w: Seq<char>| low_map(w))),
    decreases ws.len(),
{
    let f = |w: Seq<char>| low_map(w);
    if ws.len() == 0 {
        assert(low_map(join_words(ws)) =~= Seq::<char>::empty());
        assert(ws.map_values(f) =~= Seq::<Seq<char>>::empty());
    } else if ws.len() == 1 {
        assert(ws.map_values(f).len() == 1);
        assert(ws.map_values(f)[0] == f(ws[0]));
        assert(join_words(ws.map_values(f)) == low_map(ws[0]));
    } else {
        lemma_join_low(ws.drop_first());
        assert(ws.map_values(f).drop_first() =~= ws.drop_first().map_values(f));
        assert(ws.map_values(f)[0] == f(ws[0]));
        assert(low_map(ws[0] + seq![' '] + join_words(ws.drop_first())) =~= low_map(ws[0]) + seq![
            ' ',
        ] + low_map(join_words(ws.drop_first())));
        assert(join_words(ws.map_values(f)) == f(ws[0]) + seq![' '] + join_words(
            ws.drop_first().map_values(f),
        ));
    }
}

/// Lower-casing a capitalized word gives the lower-cased word.
proof fn lemma_low_cap(w: Seq<char>)
    requires
        ascii_seq(w),
    ensures
        low_map(cap_word(w)) == low_map(w),
{
    if w.len() > 0 {
        assert(is_ascii_char(w[0]));
        assert(upper_char_seq(w[0]) == seq![ascii_upper_char(w[0])]);
        assert(low_map(cap_word(w)) =~= low_map(w));
    }
}

/// Every word of a split is nonempty and space-free, and of an all-ASCII
/// sequence all words are ASCII.
proof fn lemma_words_wf(s: Seq<char>)
    ensures
        forall|i: int| 0 <= i < words_of(s).len() ==> (#[trigger] words_of(s)[i]).len() > 0,
        forall|i: int, j: int|
            0 <= i < words_of(s).len() && 0 <= j < words_of(s)[i].len() ==> !is_space_char(
                #[trigger] words_of(s)[i][j],
            ),
        ascii_seq(s) ==> forall|i: int, j: int|
            0 <= i < words_of(s).len() && 0 <= j < words_of(s)[i].len() ==> is_ascii_char(
                #[trigger] words_of(s)[i][j],
            ),
    decreases s.len(),
{
    if s.len() == 0 {
    } else if is_space_char(s[0]) {
        lemma_words_wf(s.drop_first());
        if ascii_seq(s) {
            assert(ascii_seq(s.drop_first())) by {
                assert(forall|j: int|
                    0 <= j < s.len() - 1 ==> #[trigger] s.drop_first()[j] == s[j + 1]);
            }
        }
        assert(words_of(s) == words_of(s.drop_first()));
        assert forall|i: int| 0 <= i < words_of(s).len() implies (#[trigger] words_of(
            s,
        )[i]).len() > 0 by {
            assert(words_of(s)[i] == words_of(s.drop_first())[i]);
        }
        assert forall|i: int, j: int|
            0 <= i < words_of(s).len() && 0 <= j < words_of(s)[i].len() implies !is_space_char(
            #[trigger] words_of(s)[i][j],
        ) by {
            assert(words_of(s)[i] == words_of(s.drop_first())[i]);
        }
        if ascii_seq(s) {
            assert forall|i: int, j: int|
                0 <= i < words_of(s).len() && 0 <= j < words_of(s)[i].len() implies is_ascii_char(
                #[trigger] words_of(s)[i][j],
            ) by {
                assert(words_of(s)[i] == words_of(s.drop_first())[i]);
            }
        }
    } else {
        let k = word_len(s) as int;
        lemma_word_len(s);
        lemma_words_wf(s.skip(k));
        if ascii_seq(s) {
            assert(ascii_seq(s.skip(k))) by {
                assert(forall|j: int|
                    0 <= j < s.len() - k ==> #[trigger] s.skip(k)[j] == s[j + k]);
            }
        }
        let w0 = s.take(k);
        assert(w0.len() > 0);
        assert(forall|j: int| 0 <= j < k ==> #[trigger] w0[j] == s[j]);
        assert(forall|i: int|
            0 <= i < words_of(s.skip(k)).len() ==> #[trigger] words_of(s)[i + 1] == words_of(
                s.skip(k),
            )[i]);
        assert(words_of(s)[0] == w0);
        assert forall|i: int| 0 <= i < words_of(s).len() implies (#[trigger] words_of(
            s,
        )[i]).len() > 0 by {
            if i > 0 {
                assert(words_of(s)[i] == words_of(s.skip(k))[i - 1]);
            }
        }
        assert forall|i: int, j: int|
            0 <= i < words_of(s).len() && 0 <= j < words_of(s)[i].len() implies !is_space_char(
            #[trigger] words_of(s)[i][j],
        ) by {
            if i == 0 {
                assert(words_of(s)[0][j] == s[j]);
            } else {
                assert(words_of(s)[i] == words_of(s.skip(k))[i - 1]);
            }
        }
        if ascii_seq(s) {
            assert forall|i: int, j: int|
                0 <= i < words_of(s).len() && 0 <= j < words_of(s)[i].len() implies is_ascii_char(
                #[trigger] words_of(s)[i][j],
            ) by {
                if i == 0 {
                    assert(words_of(s)[0][j] == s[j]);
                } else {
                    assert(words_of(s)[i] == words_of(s.skip(k))[i - 1]);
                }
            }
        }
    }
}

/// A join of ASCII words under single spaces is ASCII.
proof fn lemma_join_ascii(ws: Seq<Seq<char>>)
    requires
        forall|i: int, j: int|
            0 <= i < ws.len() && 0 <= j < ws[i].len() ==> is_ascii_char(#[trigger] ws[i][j]),
    ensures
        ascii_seq(join_words(ws)),
    decreases ws.len(),
{
    if ws.len() == 0 {
    } else if ws.len() == 1 {
        assert(forall|j: int| 0 <= j < ws[0].len() ==> is_ascii_char(#[trigger] ws[0][j]));
        assert(ascii_seq(ws[0]));
    } else {
        assert(forall|i: int, j: int|
            0 <= i < ws.drop_first().len() && 0 <= j < ws.drop_first()[i].len() ==> #[trigger] ws.drop_first()[i][j]
                == ws[i + 1][j]);
        lemma_join_ascii(ws.drop_first());
        let q = ws[0] + seq![' '] + join_words(ws.drop_first());
        assert forall|j: int| 0 <= j < q.len() implies is_ascii_char(q[j]) by {
            if j < ws[0].len() {
                assert(q[j] == ws[0][j]);
            } else if j == ws[0].len() {
                assert(q[j] == ' ');
            } else {
                assert(q[j] == join_words(ws.drop_first())[j - ws[0].len() - 1]);
            }
        }
    }
}

/// Splitting the join of nonempty space-free words gives the words back.
proof fn lemma_words_of_join(ws: Seq<Seq<char>>)
    requires
        forall|i: int| 0 <= i < ws.len() ==> (#[trigger] ws[i]).len() > 0,
        forall|i: int, j: int|
            0 <= i < ws.len() && 0 <= j < ws[i].len() ==> !is_space_char(#[trigger] ws[i][j]),
    ensures
        words_of(join_words(ws)) == ws,
    decreases ws.len(),
{
    if ws.len() == 0 {
        assert(words_of(join_words(ws)) =~= ws);
    } else if ws.len() == 1 {
        let w = ws[0];
        assert(join_words(ws) == w);
        assert(!is_space_char(w[0]));
        lemma_word_len_exact(w, w.len() as int);
        assert(w.take(w.len() as int) =~= w);
        assert(w.skip(w.len() as int) =~= Seq::<char>::empty());
        assert(words_of(w) == seq![w] + words_of(Seq::<char>::empty()));
        assert(seq![w] + Seq::<Seq<char>>::empty() =~= ws);
    } else {
        let w = ws[0];
        let rest = ws.drop_first();
        let q = join_words(ws);
        assert(q == w + seq![' '] + join_words(rest));
        let m = w.len() as int;
        assert(forall|j: int| 0 <= j < m ==> #[trigger] q[j] == w[j]);
        assert(q[m] == ' ');
        assert(is_space_char(' '));
        lemma_word_len_exact(q, m);
        assert(!is_space_char(q[0]));
        assert(q.take(m) =~= w);
        assert(q.skip(m) =~= seq![' '] + join_words(rest));
        let t = q.skip(m);
        assert(is_space_char(t[0]));
        assert(t.drop_first() =~= join_words(rest));
        assert(forall|i: int| 0 <= i < rest.len() ==> #[trigger] rest[i] == ws[i + 1]);
        assert(forall|i: int, j: int|
            0 <= i < rest.len() && 0 <= j < rest[i].len() ==> #[trigger] rest[i][j] == ws[i
                + 1][j]);
        lemma_words_of_join(rest);
        assert(words_of(q) == seq![w] + words_of(t));
        assert(words_of(t) == words_of(join_words(rest)));
        assert(seq![w] + rest =~= ws);
    }
}

/// Normalization is idempotent: on an all-ASCII title, normalizing the
/// normalized title changes nothing.
pub proof fn lemma_normalized_title_idempotent(s: Seq<char>)
    requires
        ascii_seq(s),
    ensures
        normalized_title(normalized_title(s)) == normalized_title(s),
{
    let lowc = |w: Seq<char>| low_map(w);
    let cap = |w: Seq<char>| cap_word(w);
    let ls = lower_str(s);
    assert(ls =~= low_map(s));
    let ws = words_of(low_map(s));
    assert(words_of(ls) == ws);
    let capped = ws.map_values(cap);
    let n1 = join_words(capped);
    assert(words_of(ls).map_values(|w: Seq<char>| cap_word(w)) =~= capped);
    assert(normalized_title(s) == n1);

    lemma_words_wf(low_map(s));
    assert(ascii_seq(low_map(s))) by {
        assert(forall|i: int|
            0 <= i < s.len() ==> #[trigger] low_map(s)[i] == ascii_lower_char(s[i]));
    }
    lemma_words_low(s);
    assert(ws == words_of(s).map_values(lowc)) by {
        assert(words_of(s).map_values(|w: Seq<char>| low_map(w)) =~= words_of(s).map_values(lowc));
    }

    // every word of ws is already lower-case, nonempty, space-free, ASCII
    assert(forall|i: int| 0 <= i < ws.len() ==> low_map(#[trigger] ws[i]) == ws[i]) by {
        assert forall|i: int| 0 <= i < ws.len() implies low_map(ws[i]) == ws[i] by {
            assert(ws[i] == lowc(words_of(s)[i]));
            assert(low_map(low_map(words_of(s)[i])) =~= low_map(words_of(s)[i]));
        }
    }
    assert(forall|i: int, j: int|
        0 <= i < ws.len() && 0 <= j < ws[i].len() ==> is_ascii_char(#[trigger] ws[i][j]));
    assert(forall|i: int| 0 <= i < ws.len() ==> ascii_seq(#[trigger] ws[i])) by {
        assert forall|i: int| 0 <= i < ws.len() implies ascii_seq(ws[i]) by {
            assert(forall|j: int| 0 <= j < ws[i].len() ==> is_ascii_char(#[trigger] ws[i][j]));
        }
    }

    // capped words are ASCII, nonempty, space-free
    assert(forall|i: int| 0 <= i < capped.len() ==> (#[trigger] capped[i]).len() > 0) by {
        assert forall|i: int| 0 <= i < capped.len() implies capped[i].len() > 0 by {
            assert(capped[i] == cap_word(ws[i]));
            assert(upper_char_seq(ws[i][0]) == seq![ascii_upper_char(ws[i][0])]);
        }
    }
    assert(forall|i: int, j: int|
        0 <= i < capped.len() && 0 <= j < capped[i].len() ==> is_ascii_char(
            #[trigger] capped[i][j],
        ) && !is_space_char(capped[i][j])) by {
        assert forall|i: int, j: int|
            0 <= i < capped.len() && 0 <= j < capped[i].len() implies is_ascii_char(capped[i][j])
            && !is_space_char(capped[i][j]) by {
            let w = ws[i];
            assert(capped[i] == cap_word(w));
            assert(upper_char_seq(w[0]) == seq![ascii_upper_char(w[0])]);
            if j == 0 {
                assert(capped[i][0] == ascii_upper_char(w[0]));
            } else {
                assert(capped[i][j] == w[j]);
            }
        }
    }
    lemma_join_ascii(capped);
    assert(ascii_seq(n1));

    // lower-casing the first normalization gives the plain join of the words
    lemma_join_low(capped);
    assert(capped.map_values(lowc) =~= ws) by {
        assert forall|i: int| 0 <= i < capped.len() implies capped.map_values(lowc)[i] == ws[i] by {
            assert(capped.map_values(lowc)[i] == low_map(cap_word(ws[i])));
            lemma_low_cap(ws[i]);
        }
    }
    assert(capped.map_values(|w: Seq<char>| low_map(w)) =~= capped.map_values(lowc));
    assert(low_map(n1) == join_words(ws));

    // the second normalization re-splits into the same words
    let ls2 = lower_str(n1);
    assert(ls2 =~= low_map(n1));
    assert(ls2 == join_words(ws));
    lemma_words_of_join(ws);
    assert(words_of(ls2) == ws);
    assert(words_of(ls2).map_values(|w: Seq<char>| cap_word(w)) =~= capped);
    assert(normalized_title(n1) == n1);
}

} // verus!
