//! Small text utilities: splitting on a separator, splitting into words,
//! joining, and the decimal and hexadecimal forms of numbers.

use vstd::prelude::*;

verus! {

/// `String::push`: the character is appended.
#[verifier::external_body]
pub(crate) fn push_char(s: &mut String, c: char)
    ensures
        final(s)@ == old(s)@.push(c),
{
    s.push(c)
}

/// `String::from(&str)`: a string with the same characters.
pub fn owned(s: &str) -> (r: String)
    ensures
        r@ == s@,
{
    let mut out = String::new();
    out.append(s);
    assert(out@ =~= s@);
    out
}

/// The Unicode `White_Space` property, which `char::is_whitespace` tests.
pub open spec fn is_white_space(c: char) -> bool {
    ||| ('\u{9}' <= c && c <= '\u{d}')
    ||| c == ' '
    ||| c == '\u{85}'
    ||| c == '\u{a0}'
    ||| c == '\u{1680}'
    ||| ('\u{2000}' <= c && c <= '\u{200a}')
    ||| c == '\u{2028}'
    ||| c == '\u{2029}'
    ||| c == '\u{202f}'
    ||| c == '\u{205f}'
    ||| c == '\u{3000}'
}

/// Whether `c` is white space.
pub fn white_space(c: char) -> (r: bool)
    ensures
        r == is_white_space(c),
{
    ('\u{9}' <= c && c <= '\u{d}') || c == ' ' || c == '\u{85}' || c == '\u{a0}' || c
        == '\u{1680}' || ('\u{2000}' <= c && c <= '\u{200a}') || c == '\u{2028}' || c
        == '\u{2029}' || c == '\u{202f}' || c == '\u{205f}' || c == '\u{3000}'
}

/// The pieces of `s` between occurrences of `sep`, as `str::split` yields them:
/// empty pieces included, and one empty piece for an empty text.
pub open spec fn split_on(s: Seq<char>, sep: char) -> Seq<Seq<char>>
    decreases s.len(),
{
    if s.len() == 0 {
        seq![Seq::empty()]
    } else {
        let prev = split_on(s.drop_last(), sep);
        if s.last() == sep {
            prev.push(Seq::empty())
        } else {
            prev.update(prev.len() - 1, prev.last().push(s.last()))
        }
    }
}

pub proof fn lemma_split_nonempty(s: Seq<char>, sep: char)
    ensures
        split_on(s, sep).len() >= 1,
    decreases s.len(),
{
    if s.len() > 0 {
        lemma_split_nonempty(s.drop_last(), sep);
    }
}

/// The words of `s`: the maximal runs of characters that are not white space,
/// as `str::split_whitespace` yields them.
pub open spec fn words(s: Seq<char>) -> Seq<Seq<char>>
    decreases s.len(),
{
    if s.len() == 0 {
        Seq::empty()
    } else {
        let prev = words(s.drop_last());
        let c = s.last();
        if is_white_space(c) {
            prev
        } else if s.len() == 1 || is_white_space(s.drop_last().last()) {
            prev.push(seq![c])
        } else {
            prev.update(prev.len() - 1, prev.last().push(c))
        }
    }
}

pub proof fn lemma_words_last(s: Seq<char>)
    requires
        s.len() > 0,
        !is_white_space(s.last()),
    ensures
        words(s).len() >= 1,
    decreases s.len(),
{
    if s.len() > 1 && !is_white_space(s.drop_last().last()) {
        lemma_words_last(s.drop_last());
    }
}

/// The pieces of `s` split at `sep`.
pub fn split(s: &str, sep: char) -> (r: Vec<String>)
    ensures
        r@.map_values(|x: String| x@) == split_on(s@, sep),
{
    let n = s.unicode_len();
    let mut out: Vec<String> = Vec::new();
    out.push(String::new());
    let mut i: usize = 0;
    while i < n
        invariant
            n == s@.len(),
            i <= n,
            out@.map_values(|x: String| x@) == split_on(s@.subrange(0, i as int), sep),
        decreases n - i,
    {
        proof {
            lemma_split_nonempty(s@.subrange(0, i as int), sep);
        }
        let c = s.get_char(i);
        let ghost prev = out@.map_values(|x: String| x@);
        assert(s@.subrange(0, i + 1).drop_last() =~= s@.subrange(0, i as int));
        if c == sep {
            out.push(String::new());
            assert(out@.map_values(|x: String| x@) =~= prev.push(Seq::empty()));
        } else {
            let last = out.len() - 1;
            let mut piece = out.pop().unwrap();
            push_char(&mut piece, c);
            out.push(piece);
            assert(out@.map_values(|x: String| x@) =~= prev.update(
                prev.len() - 1,
                prev.last().push(c),
            ));
        }
        i = i + 1;
    }
    assert(s@.subrange(0, n as int) =~= s@);
    out
}

/// The words of `s`.
pub fn split_words(s: &str) -> (r: Vec<String>)
    ensures
        r@.map_values(|x: String| x@) == words(s@),
{
    let n = s.unicode_len();
    let mut out: Vec<String> = Vec::new();
    let mut i: usize = 0;
    let mut in_word = false;
    while i < n
        invariant
            n == s@.len(),
            i <= n,
            out@.map_values(|x: String| x@) == words(s@.subrange(0, i as int)),
            in_word == (i > 0 && !is_white_space(s@[i - 1])),
        decreases n - i,
    {
        let c = s.get_char(i);
        let ghost sub = s@.subrange(0, i + 1);
        let ghost prev = out@.map_values(|x: String| x@);
        assert(sub.drop_last() =~= s@.subrange(0, i as int));
        assert(sub.last() == c);
        if white_space(c) {
            in_word = false;
        } else if !in_word {
            let mut w = String::new();
            push_char(&mut w, c);
            out.push(w);
            assert(w@ =~= seq![c]);
            assert(out@.map_values(|x: String| x@) =~= prev.push(seq![c]));
            in_word = true;
        } else {
            proof {
                lemma_words_last(s@.subrange(0, i as int));
            }
            let mut piece = out.pop().unwrap();
            push_char(&mut piece, c);
            out.push(piece);
            assert(out@.map_values(|x: String| x@) =~= prev.update(
                prev.len() - 1,
                prev.last().push(c),
            ));
        }
        i = i + 1;
    }
    assert(s@.subrange(0, n as int) =~= s@);
    out
}

/// `parts` joined with `sep` between neighbours.
pub open spec fn joined(parts: Seq<Seq<char>>, sep: Seq<char>) -> Seq<char>
    decreases parts.len(),
{
    if parts.len() == 0 {
        Seq::empty()
    } else if parts.len() == 1 {
        parts[0]
    } else {
        joined(parts.drop_last(), sep) + sep + parts.last()
    }
}

/// The first `n` of `parts` joined with `sep`.
pub fn join(parts: &Vec<String>, n: usize, sep: &str) -> (r: String)
    requires
        n <= parts.len(),
    ensures
        r@ == joined(parts@.map_values(|x: String| x@).subrange(0, n as int), sep@),
{
    let ghost all = parts@.map_values(|x: String| x@);
    let mut out = String::new();
    let mut i: usize = 0;
    while i < n
        invariant
            n <= parts.len(),
            all == parts@.map_values(|x: String| x@),
            i <= n,
            out@ == joined(all.subrange(0, i as int), sep@),
        decreases n - i,
    {
        assert(all.subrange(0, i + 1).drop_last() =~= all.subrange(0, i as int));
        assert(all.subrange(0, i + 1).last() == parts@[i as int]@);
        if i > 0 {
            out.append(sep);
        }
        out.append(parts[i].as_str());
        if i == 0 {
            assert(out@ =~= joined(all.subrange(0, 1), sep@));
        }
        i = i + 1;
    }
    out
}

/// The decimal digits of `n`, without leading zeros.
pub open spec fn decimal(n: nat) -> Seq<char>
    decreases n,
{
    if n < 10 {
        seq![digit(n)]
    } else {
        decimal(n / 10).push(digit(n % 10))
    }
}

/// The digit for `d < 16`, lower case for the letters.
pub open spec fn digit(d: nat) -> char {
    if d < 10 {
        (('0' as nat) + d) as char
    } else {
        (('a' as nat) + d - 10) as char
    }
}

fn digit_char(d: u64) -> (c: char)
    requires
        d < 16,
    ensures
        c == digit(d as nat),
{
    let table = ['0', '1', '2', '3', '4', '5', '6', '7', '8', '9', 'a', 'b', 'c', 'd', 'e', 'f'];
    assert(table@[d as int] == digit(d as nat)) by {
        assert(table@ =~= seq![
            digit(0),
            digit(1),
            digit(2),
            digit(3),
            digit(4),
            digit(5),
            digit(6),
            digit(7),
            digit(8),
            digit(9),
            digit(10),
            digit(11),
            digit(12),
            digit(13),
            digit(14),
            digit(15),
        ]);
    }
    table[d as usize]
}

/// `n` written in decimal, as `to_string` writes an integer.
pub fn decimal_string(n: u64) -> (r: String)
    ensures
        r@ == decimal(n as nat),
    decreases n,
{
    if n < 10 {
        let mut s = String::new();
        push_char(&mut s, digit_char(n));
        assert(s@ =~= seq![digit(n as nat)]);
        s
    } else {
        let mut s = decimal_string(n / 10);
        push_char(&mut s, digit_char(n % 10));
        s
    }
}

/// The last `k` hexadecimal digits of `h`, zero-padded, most significant first.
pub open spec fn hex_digits(h: nat, k: nat) -> Seq<char>
    decreases k,
{
    if k == 0 {
        Seq::empty()
    } else {
        hex_digits(h / 16, (k - 1) as nat).push(digit(h % 16))
    }
}

/// `h` as sixteen lower-case hexadecimal digits, as `format!("{:016x}")` writes
/// a 64-bit value.
pub fn hex16(h: u64) -> (r: String)
    ensures
        r@ == hex_digits(h as nat, 16),
{
    let mut digits: Vec<char> = Vec::new();
    let mut rest: u64 = h;
    let mut k: usize = 0;
    proof {
        vstd::arithmetic::power::lemma_pow0(16);
        assert(h as nat / 1 == h as nat);
    }
    while k < 16
        invariant
            k <= 16,
            digits@.len() == k,
            forall|j: int|
                0 <= j < k ==> #[trigger] digits@[j] == digit(
                    (h as nat / vstd::arithmetic::power::pow(16, j as nat) as nat) % 16,
                ),
            rest as nat == h as nat / vstd::arithmetic::power::pow(16, k as nat) as nat,
        decreases 16 - k,
    {
        proof {
            vstd::arithmetic::power::lemma_pow_positive(16, k as nat);
            vstd::arithmetic::power::lemma_pow_adds(16, k as nat, 1);
            vstd::arithmetic::power::lemma_pow1(16);
            vstd::arithmetic::div_mod::lemma_div_denominator(
                h as int,
                vstd::arithmetic::power::pow(16, k as nat),
                16,
            );
        }
        digits.push(digit_char(rest % 16));
        rest = rest / 16;
        k = k + 1;
    }
    let mut out = String::new();
    let mut j: usize = 16;
    while j > 0
        invariant
            j <= 16,
            digits@.len() == 16,
            forall|i: int|
                0 <= i < 16 ==> #[trigger] digits@[i] == digit(
                    (h as nat / vstd::arithmetic::power::pow(16, i as nat) as nat) % 16,
                ),
            out@ == hex_digits(
                h as nat / vstd::arithmetic::power::pow(16, j as nat) as nat,
                (16 - j) as nat,
            ),
        decreases j,
    {
        proof {
            lemma_hex_step(h as nat, (j - 1) as nat, (16 - j) as nat);
        }
        push_char(&mut out, digits[j - 1]);
        j = j - 1;
    }
    proof {
        vstd::arithmetic::power::lemma_pow0(16);
        assert(h as nat / 1 == h as nat);
    }
    out
}

proof fn lemma_hex_step(h: nat, i: nat, k: nat)
    ensures
        hex_digits(h / vstd::arithmetic::power::pow(16, i) as nat, k + 1) == hex_digits(
            h / vstd::arithmetic::power::pow(16, i + 1) as nat,
            k,
        ).push(digit((h / vstd::arithmetic::power::pow(16, i) as nat) % 16)),
{
    vstd::arithmetic::power::lemma_pow_positive(16, i);
    vstd::arithmetic::power::lemma_pow_adds(16, i, 1);
    vstd::arithmetic::power::lemma_pow1(16);
    vstd::arithmetic::div_mod::lemma_div_denominator(
        h as int,
        vstd::arithmetic::power::pow(16, i),
        16,
    );
}

// ---------------------------------------------------------------------------
// How splitting undoes joining.
// ---------------------------------------------------------------------------

/// A separator character splits a text into the pieces on either side of it.
pub proof fn lemma_split_concat(x: Seq<char>, y: Seq<char>, sep: char)
    ensures
        split_on(x + seq![sep] + y, sep) == split_on(x, sep) + split_on(y, sep),
    decreases y.len(),
{
    let s = x + seq![sep] + y;
    if y.len() == 0 {
        assert(s.drop_last() =~= x);
        assert(split_on(y, sep) =~= seq![Seq::<char>::empty()]);
        assert(split_on(s, sep) =~= split_on(x, sep) + split_on(y, sep));
    } else {
        lemma_split_concat(x, y.drop_last(), sep);
        assert(s.drop_last() =~= x + seq![sep] + y.drop_last());
        lemma_split_nonempty(y.drop_last(), sep);
        lemma_split_nonempty(x, sep);
        assert(split_on(s, sep) =~= split_on(x, sep) + split_on(y, sep));
    }
}

/// A text without the separator is one piece.
pub proof fn lemma_split_single(x: Seq<char>, sep: char)
    requires
        forall|i: int| 0 <= i < x.len() ==> x[i] != sep,
    ensures
        split_on(x, sep) == seq![x],
    decreases x.len(),
{
    if x.len() > 0 {
        lemma_split_single(x.drop_last(), sep);
        assert(x[x.len() - 1] != sep);
        assert(x.drop_last().push(x.last()) =~= x);
        assert(split_on(x, sep) =~= seq![x]);
    } else {
        assert(x =~= Seq::<char>::empty());
    }
}

/// White space between two texts separates their words.
pub proof fn lemma_words_concat(x: Seq<char>, y: Seq<char>)
    ensures
        words(x + seq![' '] + y) == words(x) + words(y),
    decreases y.len(),
{
    let s = x + seq![' '] + y;
    if y.len() == 0 {
        assert(s.drop_last() =~= x);
        assert(words(s) =~= words(x) + words(y));
    } else {
        lemma_words_concat(x, y.drop_last());
        assert(s.drop_last() =~= x + seq![' '] + y.drop_last());
        let c = y.last();
        if !is_white_space(c) && y.len() > 1 && !is_white_space(y.drop_last().last()) {
            lemma_words_last(y.drop_last());
            assert(s.drop_last().last() == y.drop_last().last());
        }
        if y.len() == 1 {
            assert(s.drop_last().last() == ' ');
        }
        assert(words(s) =~= words(x) + words(y));
    }
}

/// Leading white space is no word.
pub proof fn lemma_words_lead(y: Seq<char>)
    ensures
        words(seq![' '] + y) == words(y),
{
    lemma_words_concat(Seq::empty(), y);
    assert(Seq::<char>::empty() + seq![' '] + y =~= seq![' '] + y);
    assert(words(Seq::<char>::empty()) =~= Seq::<Seq<char>>::empty());
    assert(Seq::<Seq<char>>::empty() + words(y) =~= words(y));
}

/// A text with no white space in it is one word, if it is not empty.
pub proof fn lemma_words_single(x: Seq<char>)
    requires
        x.len() > 0,
        forall|i: int| 0 <= i < x.len() ==> !is_white_space(#[trigger] x[i]),
    ensures
        words(x) == seq![x],
    decreases x.len(),
{
    assert(!is_white_space(x[x.len() - 1]));
    if x.len() > 1 {
        lemma_words_single(x.drop_last());
        assert(x.drop_last().push(x.last()) =~= x);
        assert(x.drop_last().last() == x[x.len() - 2]);
        assert(!is_white_space(x[x.len() - 2]));
        assert(words(x) =~= seq![x]);
    } else {
        assert(seq![x.last()] =~= x);
        assert(words(x.drop_last()) =~= Seq::<Seq<char>>::empty());
        assert(words(x) =~= seq![x]);
    }
}

} // verus!
