//! Splitting program text into tokens.
use vstd::prelude::*;
use crate::prim::{FloatArith, fits_i64};
use crate::token::{Tok, Token, TokenError};
use vstd::std_specs::iter::IteratorSpec;

verus! {

broadcast use vstd::std_specs::vec::group_vec_axioms, vstd::seq::group_seq_axioms;

/// The characters that separate words: Unicode's White_Space.
pub open spec fn is_space(c: char) -> bool {
    ('\u{9}' <= c <= '\u{d}') || c == ' ' || c == '\u{85}' || c == '\u{a0}' || c == '\u{1680}'
        || ('\u{2000}' <= c <= '\u{200a}') || c == '\u{2028}' || c == '\u{2029}' || c == '\u{202f}'
        || c == '\u{205f}' || c == '\u{3000}'
}

pub open spec fn is_paren(c: char) -> bool {
    c == '(' || c == ')'
}

/// The finished words, with the word in progress added when there is one.
pub open spec fn flush(ws: Seq<Seq<char>>, cur: Seq<char>) -> Seq<Seq<char>> {
    if cur.len() == 0 {
        ws
    } else {
        ws.push(cur)
    }
}

/// Reading `s` left to right: the words finished so far and the word in progress.
/// A parenthesis is a word of its own; whitespace ends a word.
pub open spec fn scan(s: Seq<char>) -> (Seq<Seq<char>>, Seq<char>)
    decreases s.len(),
{
    if s.len() == 0 {
        (seq![], seq![])
    } else {
        let (ws, cur) = scan(s.drop_last());
        let c = s.last();
        if is_paren(c) {
            (flush(ws, cur).push(seq![c]), seq![])
        } else if is_space(c) {
            (flush(ws, cur), seq![])
        } else {
            (ws, cur.push(c))
        }
    }
}

/// The words of `s`.
pub open spec fn words(s: Seq<char>) -> Seq<Seq<char>> {
    flush(scan(s).0, scan(s).1)
}

pub open spec fn is_digit(c: char) -> bool {
    '0' <= c <= '9'
}

/// The number that a string of decimal digits writes.
pub open spec fn digits_value(d: Seq<char>) -> int
    decreases d.len(),
{
    if d.len() == 0 {
        0
    } else {
        digits_value(d.drop_last()) * 10 + (d.last() as u32 - '0' as u32)
    }
}

pub open spec fn all_digits(d: Seq<char>) -> bool {
    d.len() > 0 && forall|i: int| 0 <= i < d.len() ==> is_digit(#[trigger] d[i])
}

/// The 64-bit integer that `w` writes: an optional `+` or `-`, then decimal digits.
pub open spec fn int_value(w: Seq<char>) -> Option<i64> {
    let neg = w.len() > 0 && w[0] == '-';
    let d = if w.len() > 0 && (w[0] == '-' || w[0] == '+') {
        w.drop_first()
    } else {
        w
    };
    let v = if neg {
        -digits_value(d)
    } else {
        digits_value(d)
    };
    if all_digits(d) && fits_i64(v) {
        Some(v as i64)
    } else {
        None
    }
}

/// `w` less one leading sign, if it has one.
pub open spec fn strip_sign(w: Seq<char>) -> Seq<char> {
    if w.len() > 0 && (w[0] == '+' || w[0] == '-') {
        w.drop_first()
    } else {
        w
    }
}

/// `b` spells the word `lower` with any letters in either case (`upper` the same word
/// in capitals).
pub open spec fn spells(b: Seq<char>, lower: Seq<char>, upper: Seq<char>) -> bool {
    b.len() == lower.len() && forall|i: int| 0 <= i < b.len() ==> (#[trigger] b[i] == lower[i] || b[i] == upper[i])
}

/// The number of `.` in `m`.
pub open spec fn count_dots(m: Seq<char>) -> nat
    decreases m.len(),
{
    if m.len() == 0 {
        0
    } else {
        count_dots(m.drop_last()) + if m.last() == '.' {
            1nat
        } else {
            0nat
        }
    }
}

/// The digits of a decimal float: digits with at most one point, at least one digit.
pub open spec fn mantissa_ok(m: Seq<char>) -> bool {
    &&& forall|i: int| 0 <= i < m.len() ==> is_digit(#[trigger] m[i]) || m[i] == '.'
    &&& count_dots(m) <= 1
    &&& exists|i: int| 0 <= i < m.len() && is_digit(#[trigger] m[i])
}

/// An exponent part: empty, or `e`/`E`, an optional sign and at least one digit.
pub open spec fn exponent_ok(x: Seq<char>) -> bool {
    x.len() == 0 || ((x[0] == 'e' || x[0] == 'E') && all_digits(strip_sign(x.drop_first())))
}

/// `w` is written as a float literal: an optional sign, then `inf`, `infinity` or
/// `nan` in any case, or a decimal mantissa with an optional exponent.
pub open spec fn float_syntax(w: Seq<char>) -> bool {
    let b = strip_sign(w);
    spells(b, seq!['i', 'n', 'f'], seq!['I', 'N', 'F']) || spells(
        b,
        seq!['i', 'n', 'f', 'i', 'n', 'i', 't', 'y'],
        seq!['I', 'N', 'F', 'I', 'N', 'I', 'T', 'Y'],
    ) || spells(b, seq!['n', 'a', 'n'], seq!['N', 'A', 'N']) || exists|k: int|
        0 <= k <= b.len() && mantissa_ok(#[trigger] b.take(k)) && exponent_ok(b.skip(k))
}

/// The token that word `w` stands for, given what the host's float reader made of
/// it (`float_bits`): a parenthesis; else the integer it writes; else, when it is
/// written as a float and the reader gave bits, that float; else the symbol `w`.
pub open spec fn word_reading(w: Seq<char>, float_bits: Option<u64>) -> Tok {
    if w == seq!['('] {
        Tok::Open
    } else if w == seq![')'] {
        Tok::Close
    } else {
        match int_value(w) {
            Some(n) => Tok::Int(n),
            None => match float_bits {
                Some(b) => if float_syntax(w) {
                    Tok::Flt(b)
                } else {
                    Tok::Sym(w)
                },
                None => Tok::Sym(w),
            },
        }
    }
}

/// Token `t` is the reading of word `w` for some answer of the float reader: the
/// reading of every word that is not written as a float is fixed.
pub open spec fn reads_as(w: Seq<char>, t: Tok) -> bool {
    t == word_reading(w, None) || (t is Flt && t == word_reading(w, Some(t->Flt_0)))
}

proof fn lemma_digits_prefix(d: Seq<char>, j: int)
    requires
        0 <= j <= d.len(),
        forall|i: int| 0 <= i < d.len() ==> is_digit(#[trigger] d[i]),
    ensures
        0 <= digits_value(d.take(j)) <= digits_value(d),
    decreases d.len(),
{
    if d.len() > 0 {
        if j == d.len() {
            assert(d.take(j) =~= d);
            lemma_digits_prefix(d.drop_last(), j - 1);
            assert(d.drop_last().take(j - 1) =~= d.take(j - 1));
        } else {
            lemma_digits_prefix(d.drop_last(), j);
            assert(d.drop_last().take(j) =~= d.take(j));
        }
    } else {
        assert(d.take(j) =~= d);
    }
}

/// The integer that the word `w` writes, if any.
fn int_of(w: &Vec<char>) -> (r: Option<i64>)
    ensures
        r == int_value(w@),
{
    let n = w.len();
    let mut start: usize = 0;
    let mut neg = false;
    if n > 0 && (w[0] == '-' || w[0] == '+') {
        start = 1;
        neg = w[0] == '-';
    }
    let ghost d = if start == 1 { w@.drop_first() } else { w@ };
    if start >= n {
        proof {
            assert(d.len() == 0);
        }
        return None;
    }
    let mut acc: i128 = 0;
    let mut j: usize = start;
    while j < n
        invariant
            start <= j <= n,
            n == w@.len(),
            start == 0 || start == 1,
            (start == 1) == (w@.len() > 0 && (w@[0] == '-' || w@[0] == '+')),
            neg == (w@.len() > 0 && w@[0] == '-'),
            d == (if start == 1 { w@.drop_first() } else { w@ }),
            forall|i: int| 0 <= i < j - start ==> is_digit(#[trigger] d[i]),
            acc == digits_value(d.take(j - start)),
            0 <= acc <= 0x8000_0000_0000_0000,
        decreases n - j,
    {
        let c = w[j];
        if !(c >= '0' && c <= '9') {
            proof {
                assert(!is_digit(d[j - start]));
            }
            return None;
        }
        let ghost k = j - start;
        proof {
            assert(d.take(k + 1).drop_last() =~= d.take(k));
        }
        acc = acc * 10 + (c as u32 - '0' as u32) as i128;
        j += 1;
        if acc > 0x8000_0000_0000_0000 {
            proof {
                if forall|i: int| 0 <= i < d.len() ==> is_digit(#[trigger] d[i]) {
                    lemma_digits_prefix(d, j - start);
                }
            }
            return None;
        }
    }
    proof {
        assert(d.take(n - start) =~= d);
    }
    let v: i128 = if neg { -acc } else { acc };
    if v < i64::MIN as i128 || v > i64::MAX as i128 {
        None
    } else {
        Some(v as i64)
    }
}

/// The token that the word `w`, written as `text`, stands for, given the host's
/// float reading `float_bits` of it.
pub fn word_token(w: &Vec<char>, text: &str, float_bits: Option<u64>) -> (r: Token)
    requires
        text@ == w@,
    ensures
        r@ == word_reading(w@, float_bits),
{
    if w.len() == 1 && w[0] == '(' {
        assert(w@ =~= seq!['(']);
        return Token::LParen;
    }
    if w.len() == 1 && w[0] == ')' {
        assert(w@ =~= seq![')']);
        return Token::RParen;
    }
    assert(w@ != seq!['('] && w@ != seq![')']) by {
        if w@ == seq!['('] {
            assert(w@[0] == '(');
        }
        if w@ == seq![')'] {
            assert(w@[0] == ')');
        }
    }
    match int_of(w) {
        Some(n) => Token::Integer(n),
        None => match float_bits {
            Some(b) => if is_float_word(w) {
                Token::Float(b)
            } else {
                Token::Symbol(text.to_owned())
            },
            None => Token::Symbol(text.to_owned()),
        },
    }
}

/// The token that the word `w`, written as `text`, stands for; the host reads it as a
/// float only when it is written as one.
fn token_of<F: FloatArith>(w: &Vec<char>, text: &str, fl: &F) -> (r: Token)
    requires
        text@ == w@,
    ensures
        reads_as(w@, r@),
{
    let fb = if is_float_word(w) {
        fl.parse(text)
    } else {
        None
    };
    word_token(w, text, fb)
}

/// Ends the word in progress, if there is one, by adding its token.
fn end_word<F: FloatArith>(
    program: &str,
    tokens: &mut Vec<Token>,
    cur: &mut Vec<char>,
    start: usize,
    pos: usize,
    fl: &F,
)
    requires
        start <= pos <= program@.len(),
        old(cur)@ == program@.subrange(start as int, pos as int),
    ensures
        final(cur)@.len() == 0,
        old(cur)@.len() == 0 ==> final(tokens)@ == old(tokens)@,
        old(cur)@.len() > 0 ==> final(tokens)@.len() == old(tokens)@.len() + 1
            && final(tokens)@.take(old(tokens)@.len() as int) == old(tokens)@
            && reads_as(old(cur)@, final(tokens)@.last()@),
{
    if cur.len() > 0 {
        let text = program.substring_char(start, pos);
        let t = token_of(cur, text, fl);
        tokens.push(t);
        assert(tokens@.take(old(tokens)@.len() as int) =~= old(tokens)@);
    }
    *cur = Vec::new();
}

/// Splits `program` into tokens. A parenthesis is a token of its own and whitespace
/// separates the others; a word that writes a 64-bit integer is an integer, else one
/// written as a float literal is the float `fl` reads it as (`word_token` is exact
/// for each answer), else it is a symbol. Every input has a reading, so the result
/// is never an error.
pub fn tokenize<F: FloatArith>(program: &str, fl: &F) -> (r: Result<Vec<Token>, TokenError>)
    ensures
        r matches Ok(ts) && ts@.len() == words(program@).len() && forall|i: int|
            0 <= i < ts@.len() ==> reads_as(#[trigger] words(program@)[i], ts@[i]@),
{
    broadcast use vstd::string::axiom_spec_iter, vstd::string::next_postcondition;

    let ghost s = program@;
    let len = program.unicode_len();
    let mut tokens: Vec<Token> = Vec::new();
    let mut cur: Vec<char> = Vec::new();
    let mut start: usize = 0;
    let mut pos: usize = 0;
    let mut it = program.chars();
    let ghost n = s.len();
    proof {
        assert(s.take(0) =~= seq![]);
        assert(s.skip(0) =~= s);
    }
    loop
        invariant
            n == s.len(),
            n == len,
            s == program@,
            0 <= start <= pos <= n,
            it.remaining() == s.skip(pos as int),
            cur@ == s.subrange(start as int, pos as int),
            cur@ == scan(s.take(pos as int)).1,
            tokens@.len() == scan(s.take(pos as int)).0.len(),
            forall|i: int|
                0 <= i < tokens@.len() ==> reads_as(
                    #[trigger] scan(s.take(pos as int)).0[i],
                    tokens@[i]@,
                ),
        ensures
            pos == n,
            cur@ == scan(s.take(pos as int)).1,
            tokens@.len() == scan(s.take(pos as int)).0.len(),
            forall|i: int|
                0 <= i < tokens@.len() ==> reads_as(
                    #[trigger] scan(s.take(pos as int)).0[i],
                    tokens@[i]@,
                ),
            start <= pos,
            cur@ == s.subrange(start as int, pos as int),
        decreases n - pos,
    {
        let ghost before = tokens@;
        let ghost pre = scan(s.take(pos as int));
        match it.next() {
            None => {
                assert(pos == n);
                break;
            },
            Some(c) => {
                assert(c == s[pos as int]);
                assert(s.take(pos + 1).drop_last() =~= s.take(pos as int));
                assert(s.skip(pos + 1) =~= s.skip(pos as int).drop_first());
                if c == '(' || c == ')' {
                    end_word(program, &mut tokens, &mut cur, start, pos, fl);
                    let t = if c == '(' { Token::LParen } else { Token::RParen };
                    tokens.push(t);
                    pos += 1;
                    start = pos;
                    proof {
                        let post = scan(s.take(pos as int));
                        assert(post.0 == flush(pre.0, pre.1).push(seq![c]));
                        assert(reads_as(seq![c], t@));
                        assert forall|i: int| 0 <= i < tokens@.len() implies reads_as(
                            #[trigger] post.0[i],
                            tokens@[i]@,
                        ) by {
                            if i < before.len() {
                                assert(tokens@[i] == before[i]);
                            }
                        }
                        assert(cur@ =~= s.subrange(start as int, pos as int));
                    }
                } else if is_space_char(c) {
                    end_word(program, &mut tokens, &mut cur, start, pos, fl);
                    pos += 1;
                    start = pos;
                    proof {
                        let post = scan(s.take(pos as int));
                        assert(post.0 == flush(pre.0, pre.1));
                        assert forall|i: int| 0 <= i < tokens@.len() implies reads_as(
                            #[trigger] post.0[i],
                            tokens@[i]@,
                        ) by {
                            if i < before.len() {
                                assert(tokens@[i] == before[i]);
                            }
                        }
                        assert(cur@ =~= s.subrange(start as int, pos as int));
                    }
                } else {
                    cur.push(c);
                    pos += 1;
                    proof {
                        assert(cur@ =~= s.subrange(start as int, pos as int));
                    }
                }
            },
        }
    }
    let ghost before = tokens@;
    let ghost cur0 = cur@;
    assert(s.take(n as int) =~= s);
    end_word(program, &mut tokens, &mut cur, start, pos, fl);
    proof {
        let fin = scan(s);
        assert(cur0 == fin.1);
        assert(before.len() == fin.0.len());
        if cur0.len() > 0 {
            assert(words(s) == fin.0.push(cur0));
            assert(tokens@.len() == words(s).len());
        } else {
            assert(words(s) == fin.0);
        }
        assert forall|i: int| 0 <= i < tokens@.len() implies reads_as(
            #[trigger] words(s)[i],
            tokens@[i]@,
        ) by {
            if i < before.len() {
                assert(tokens@.take(before.len() as int)[i] == before[i]);
                assert(tokens@[i] == before[i]);
                assert(words(s)[i] == fin.0[i]);
            } else {
                assert(words(s)[i] == cur0);
            }
        }
    }
    Ok(tokens)
}

/// Whether `c` separates words.
fn is_space_char(c: char) -> (r: bool)
    ensures
        r == is_space(c),
{
    ('\u{9}' <= c && c <= '\u{d}') || c == ' ' || c == '\u{85}' || c == '\u{a0}' || c == '\u{1680}'
        || ('\u{2000}' <= c && c <= '\u{200a}') || c == '\u{2028}' || c == '\u{2029}' || c
        == '\u{202f}' || c == '\u{205f}' || c == '\u{3000}'
}

/// Whether `c` is `lower` or `upper`.
fn either(c: char, lower: char, upper: char) -> (r: bool)
    ensures
        r == (c == lower || c == upper),
{
    c == lower || c == upper
}

/// Index of the first `e` or `E` in `w` at or after `from`, or the length.
fn first_exponent(w: &Vec<char>, from: usize) -> (k: usize)
    requires
        from <= w@.len(),
    ensures
        from <= k <= w@.len(),
        forall|i: int| from <= i < k ==> #[trigger] w@[i] != 'e' && w@[i] != 'E',
        k < w@.len() ==> (w@[k as int] == 'e' || w@[k as int] == 'E'),
{
    let mut k = from;
    while k < w.len() && w[k] != 'e' && w[k] != 'E'
        invariant
            from <= k <= w@.len(),
            forall|i: int| from <= i < k ==> #[trigger] w@[i] != 'e' && w@[i] != 'E',
        decreases w@.len() - k,
    {
        k += 1;
    }
    k
}

/// Whether `w[from..to]` is a decimal mantissa.
fn mantissa_word(w: &Vec<char>, from: usize, to: usize) -> (r: bool)
    requires
        from <= to <= w@.len(),
    ensures
        r == mantissa_ok(w@.subrange(from as int, to as int)),
{
    let ghost m = w@.subrange(from as int, to as int);
    let mut dots: usize = 0;
    let mut digit = false;
    let mut j = from;
    while j < to
        invariant
            from <= j <= to <= w@.len(),
            m == w@.subrange(from as int, to as int),
            forall|i: int| 0 <= i < j - from ==> is_digit(#[trigger] m[i]) || m[i] == '.',
            dots as nat == count_dots(m.take(j - from)),
            dots <= 1,
            digit == exists|i: int| 0 <= i < j - from && is_digit(#[trigger] m[i]),
        decreases to - j,
    {
        let c = w[j];
        let ghost t = m.take(j - from + 1);
        assert(t.drop_last() =~= m.take(j - from));
        assert(m[j - from] == c);
        if c == '.' {
            if dots == 1 {
                proof {
                    lemma_dots_prefix(m, j - from + 1);
                }
                return false;
            }
            dots = 1;
        } else if c >= '0' && c <= '9' {
            digit = true;
        } else {
            return false;
        }
        j += 1;
    }
    assert(m.take(to - from) =~= m);
    digit
}

proof fn lemma_dots_prefix(m: Seq<char>, j: int)
    requires
        0 <= j <= m.len(),
    ensures
        count_dots(m.take(j)) <= count_dots(m),
    decreases m.len(),
{
    if j == m.len() {
        assert(m.take(j) =~= m);
    } else {
        lemma_dots_prefix(m.drop_last(), j);
        assert(m.drop_last().take(j) =~= m.take(j));
    }
}

/// Whether `w[from..]` is an exponent part.
fn exponent_word(w: &Vec<char>, from: usize) -> (r: bool)
    requires
        from <= w@.len(),
    ensures
        r == exponent_ok(w@.subrange(from as int, w@.len() as int)),
{
    let ghost x = w@.subrange(from as int, w@.len() as int);
    let n = w.len();
    if from == n {
        return true;
    }
    if !(w[from] == 'e' || w[from] == 'E') {
        return false;
    }
    let mut s = from + 1;
    if s < n && (w[s] == '+' || w[s] == '-') {
        s = s + 1;
    }
    let ghost d = strip_sign(x.drop_first());
    assert(d =~= w@.subrange(s as int, n as int));
    if s == n {
        return false;
    }
    let mut j = s;
    while j < n
        invariant
            s <= j <= n,
            n == w@.len(),
            d == w@.subrange(s as int, n as int),
            s < n,
            x == w@.subrange(from as int, n as int),
            d == strip_sign(x.drop_first()),
            x.len() > 0 && (x[0] == 'e' || x[0] == 'E'),
            forall|i: int| 0 <= i < j - s ==> is_digit(#[trigger] d[i]),
        decreases n - j,
    {
        if !(w[j] >= '0' && w[j] <= '9') {
            assert(!is_digit(d[j - s]));
            return false;
        }
        j += 1;
    }
    true
}

/// Whether the word `w` is written as a float literal.
fn is_float_word(w: &Vec<char>) -> (r: bool)
    ensures
        r == float_syntax(w@),
{
    let n = w.len();
    let s: usize = if n > 0 && (w[0] == '+' || w[0] == '-') { 1 } else { 0 };
    let ghost b = strip_sign(w@);
    assert(b =~= w@.subrange(s as int, n as int));
    let m = n - s;
    let inf = m == 3 && either(w[s], 'i', 'I') && either(w[s + 1], 'n', 'N') && either(w[s + 2], 'f', 'F');
    let infinity = m == 8 && either(w[s], 'i', 'I') && either(w[s + 1], 'n', 'N') && either(
        w[s + 2],
        'f',
        'F',
    ) && either(w[s + 3], 'i', 'I') && either(w[s + 4], 'n', 'N') && either(w[s + 5], 'i', 'I')
        && either(w[s + 6], 't', 'T') && either(w[s + 7], 'y', 'Y');
    let nan = m == 3 && either(w[s], 'n', 'N') && either(w[s + 1], 'a', 'A') && either(w[s + 2], 'n', 'N');
    proof {
        let l3 = seq!['i', 'n', 'f'];
        let u3 = seq!['I', 'N', 'F'];
        if spells(b, l3, u3) {
            assert(b[0] == l3[0] || b[0] == u3[0]);
            assert(b[1] == l3[1] || b[1] == u3[1]);
            assert(b[2] == l3[2] || b[2] == u3[2]);
        }
        let l8 = seq!['i', 'n', 'f', 'i', 'n', 'i', 't', 'y'];
        let u8 = seq!['I', 'N', 'F', 'I', 'N', 'I', 'T', 'Y'];
        if spells(b, l8, u8) {
            assert forall|i: int| 0 <= i < 8 implies b[i] == l8[i] || b[i] == u8[i] by {}
            assert(b[0] == l8[0] || b[0] == u8[0]);
            assert(b[1] == l8[1] || b[1] == u8[1]);
            assert(b[2] == l8[2] || b[2] == u8[2]);
            assert(b[3] == l8[3] || b[3] == u8[3]);
            assert(b[4] == l8[4] || b[4] == u8[4]);
            assert(b[5] == l8[5] || b[5] == u8[5]);
            assert(b[6] == l8[6] || b[6] == u8[6]);
            assert(b[7] == l8[7] || b[7] == u8[7]);
        }
        let ln = seq!['n', 'a', 'n'];
        let un = seq!['N', 'A', 'N'];
        if spells(b, ln, un) {
            assert(b[0] == ln[0] || b[0] == un[0]);
            assert(b[1] == ln[1] || b[1] == un[1]);
            assert(b[2] == ln[2] || b[2] == un[2]);
        }
        assert(inf == spells(b, l3, u3));
        assert(infinity == spells(b, l8, u8));
        assert(nan == spells(b, ln, un));
    }
    if inf || infinity || nan {
        return true;
    }
    let k = first_exponent(w, s);
    let mo = mantissa_word(w, s, k);
    let eo = exponent_word(w, k);
    proof {
        let kk = k - s;
        assert(b.take(kk) =~= w@.subrange(s as int, k as int));
        assert(b.skip(kk) =~= w@.subrange(k as int, n as int));
        if !(mo && eo) {
            assert forall|k2: int| 0 <= k2 <= b.len() && #[trigger] mantissa_ok(b.take(k2)) implies !exponent_ok(b.skip(k2)) by {
                if exponent_ok(b.skip(k2)) {
                    if k2 < kk {
                        assert(b.skip(k2)[0] == w@[s + k2]);
                    } else if k2 > kk {
                        assert(b.take(k2)[kk] == w@[k as int]);
                    }
                    assert(k2 == kk);
                }
            }
        }
    }
    mo && eo
}

} // verus!
