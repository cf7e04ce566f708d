//! Shared text primitives for the ASCII encodings: character classes,
//! decimal numbers, line splitting, and whitespace tokenization.

use vstd::prelude::*;

use crate::error::ParseError;

verus! {

/// ASCII whitespace, as the tokenizer understands it.
pub open spec fn spec_is_ws(c: char) -> bool {
    c == ' ' || c == '\t' || c == '\n' || c == '\r'
}

/// The characters the encoders emit.
pub open spec fn spec_emit_char(c: char) -> bool {
    c == '.' || c == '1' || c == '2' || c == '3' || c == '4' || c == '5' || c == '#' || c == '|'
        || c == ' ' || c == '\n' || c == '0' || c == '6' || c == '7' || c == '8' || c == '9'
}

/// The decimal digit with value `d`.
pub open spec fn digit_char(d: int) -> char {
    if d == 0 {
        '0'
    } else if d == 1 {
        '1'
    } else if d == 2 {
        '2'
    } else if d == 3 {
        '3'
    } else if d == 4 {
        '4'
    } else if d == 5 {
        '5'
    } else if d == 6 {
        '6'
    } else if d == 7 {
        '7'
    } else if d == 8 {
        '8'
    } else {
        '9'
    }
}

/// The value of a decimal digit character, or -1 for any other character.
pub open spec fn digit_val(c: char) -> int {
    if c == '0' {
        0
    } else if c == '1' {
        1
    } else if c == '2' {
        2
    } else if c == '3' {
        3
    } else if c == '4' {
        4
    } else if c == '5' {
        5
    } else if c == '6' {
        6
    } else if c == '7' {
        7
    } else if c == '8' {
        8
    } else if c == '9' {
        9
    } else {
        -1
    }
}

pub open spec fn is_digit(c: char) -> bool {
    digit_val(c) >= 0
}

/// The canonical decimal form of a non-negative number.
pub open spec fn dec_digits(n: int) -> Seq<char>
    decreases n,
{
    if n < 10 {
        seq![digit_char(if n < 0 {
            0
        } else {
            n
        })]
    } else {
        dec_digits(n / 10).push(digit_char(n % 10))
    }
}

/// The number a digit string denotes.
pub open spec fn dec_value(t: Seq<char>) -> int
    decreases t.len(),
{
    if t.len() == 0 {
        0
    } else {
        dec_value(t.drop_last()) * 10 + digit_val(t.last())
    }
}

pub open spec fn all_digits(t: Seq<char>) -> bool {
    forall|i: int| 0 <= i < t.len() ==> is_digit(#[trigger] t[i])
}

/// Reading whitespace-separated token number `idx` as a byte-sized number:
/// it must be non-empty, all digits, and fit in a byte.
pub open spec fn spec_parse_u8(t: Seq<char>, idx: int) -> Result<int, ParseError> {
    if t.len() == 0 || !all_digits(t) || dec_value(t) > 255 {
        Err(ParseError::BadNumber { token: idx as usize })
    } else {
        Ok(dec_value(t))
    }
}

/// Position of the first `'\n'` in `s`, if any.
pub open spec fn find_nl(s: Seq<char>) -> Option<int>
    decreases s.len(),
{
    if s.len() == 0 {
        None
    } else if s[0] == '\n' {
        Some(0)
    } else {
        match find_nl(s.skip(1)) {
            None => None,
            Some(j) => Some(j + 1),
        }
    }
}

/// The lines of `s`: segments split at `'\n'`, one final line ending
/// optional.
pub open spec fn split_nl(s: Seq<char>) -> Seq<Seq<char>>
    decreases s.len(),
{
    if s.len() == 0 {
        Seq::empty()
    } else if s[0] == '\n' {
        seq![Seq::<char>::empty()] + split_nl(s.skip(1))
    } else {
        let rest = split_nl(s.skip(1));
        if rest.len() == 0 {
            seq![s]
        } else {
            seq![seq![s[0]] + rest[0]] + rest.skip(1)
        }
    }
}

/// The whitespace-separated tokens of `s`: maximal whitespace-free runs.
pub open spec fn ws_tokens(s: Seq<char>) -> Seq<Seq<char>>
    decreases s.len(),
{
    if s.len() == 0 {
        Seq::empty()
    } else if spec_is_ws(s[0]) {
        ws_tokens(s.skip(1))
    } else {
        let rest = ws_tokens(s.skip(1));
        if 1 < s.len() && !spec_is_ws(s[1]) {
            seq![seq![s[0]] + rest[0]] + rest.skip(1)
        } else {
            seq![seq![s[0]]] + rest
        }
    }
}

/// The characters of a text, as a vector.
pub fn chars_of(s: &str) -> (r: Vec<char>)
    ensures
        r@ == s@,
{
    let n = s.unicode_len();
    let mut r: Vec<char> = Vec::new();
    let mut i: usize = 0;
    while i < n
        invariant
            0 <= i <= n,
            n == s@.len(),
            r@.len() == i,
            forall|j: int| 0 <= j < i ==> r@[j] == s@[j],
        decreases n - i,
    {
        r.push(s.get_char(i));
        i += 1;
    }
    proof {
        assert(r@ =~= s@);
    }
    r
}

/// Append one character of the emitted alphabet to a text.
pub fn append_char(s: &mut String, c: char)
    requires
        spec_emit_char(c),
    ensures
        final(s)@ == old(s)@ + seq![c],
{
    let lit: &str = match c {
        '.' => ".",
        '1' => "1",
        '2' => "2",
        '3' => "3",
        '4' => "4",
        '5' => "5",
        '#' => "#",
        '|' => "|",
        ' ' => " ",
        '\n' => "\n",
        '0' => "0",
        '6' => "6",
        '7' => "7",
        '8' => "8",
        _ => "9",
    };
    proof {
        reveal_strlit(".");
        reveal_strlit("1");
        reveal_strlit("2");
        reveal_strlit("3");
        reveal_strlit("4");
        reveal_strlit("5");
        reveal_strlit("#");
        reveal_strlit("|");
        reveal_strlit(" ");
        reveal_strlit("\n");
        reveal_strlit("0");
        reveal_strlit("6");
        reveal_strlit("7");
        reveal_strlit("8");
        reveal_strlit("9");
        assert(lit@ =~= seq![c]);
    }
    s.append(lit);
}

/// Append the canonical decimal form of `n` to a text.
pub fn append_dec(s: &mut String, n: u64)
    ensures
        final(s)@ == old(s)@ + dec_digits(n as int),
    decreases n,
{
    if n >= 10 {
        append_dec(s, n / 10);
    }
    let d = n % 10;
    let c = match d {
        0 => '0',
        1 => '1',
        2 => '2',
        3 => '3',
        4 => '4',
        5 => '5',
        6 => '6',
        7 => '7',
        8 => '8',
        _ => '9',
    };
    proof {
        assert(c == digit_char(n as int % 10));
    }
    append_char(s, c);
    proof {
        assert(s@ =~= old(s)@ + dec_digits(n as int));
    }
}


/// The views of a vector of character vectors.
pub open spec fn views_of(vs: Seq<Vec<char>>) -> Seq<Seq<char>> {
    vs.map_values(|v: Vec<char>| v@)
}

/// Splitting text that starts with a newline-free line and its line ending
/// yields that line followed by the split of the remainder.
pub proof fn lemma_split_nl_concat(line: Seq<char>, rest: Seq<char>)
    requires
        forall|i: int| 0 <= i < line.len() ==> line[i] != '\n',
    ensures
        split_nl(line + seq!['\n'] + rest) == seq![line] + split_nl(rest),
    decreases line.len(),
{
    let s = line + seq!['\n'] + rest;
    if line.len() == 0 {
        assert(s =~= seq!['\n'] + rest);
        assert(s[0] == '\n');
        assert(s.skip(1) =~= rest);
        assert(split_nl(s) == seq![Seq::<char>::empty()] + split_nl(rest));
        assert(line =~= Seq::<char>::empty());
    } else {
        let line2 = line.skip(1);
        lemma_split_nl_concat(line2, rest);
        assert(s[0] == line[0]);
        assert(s[0] != '\n');
        assert(s.skip(1) =~= line2 + seq!['\n'] + rest);
        let r2 = split_nl(s.skip(1));
        assert(r2 == seq![line2] + split_nl(rest));
        assert(r2.len() > 0);
        assert(r2[0] == line2);
        assert(seq![s[0]] + r2[0] =~= line);
        assert(r2.skip(1) =~= split_nl(rest));
        assert(split_nl(s) =~= seq![line] + split_nl(rest));
    }
}

/// A non-empty newline-free text is a single line.
pub proof fn lemma_split_nl_single(line: Seq<char>)
    requires
        line.len() > 0,
        forall|i: int| 0 <= i < line.len() ==> line[i] != '\n',
    ensures
        split_nl(line) == seq![line],
    decreases line.len(),
{
    if line.len() > 1 {
        lemma_split_nl_single(line.skip(1));
        assert(split_nl(line.skip(1))[0] == line.skip(1));
        assert(seq![line[0]] + line.skip(1) =~= line);
        assert(split_nl(line) =~= seq![line]);
    } else {
        assert(line.skip(1) =~= Seq::<char>::empty());
        assert(split_nl(Seq::<char>::empty()) =~= Seq::<Seq<char>>::empty());
        assert(split_nl(line) =~= seq![line]);
    }
}

/// The lines of `chars`, starting at `from`.
pub fn split_lines_at(chars: &Vec<char>, from: usize) -> (r: Vec<Vec<char>>)
    requires
        from <= chars@.len(),
    ensures
        views_of(r@) == split_nl(chars@.skip(from as int)),
{
    let n = chars.len();
    let mut r: Vec<Vec<char>> = Vec::new();
    let mut cur: Vec<char> = Vec::new();
    let mut i = from;
    while i < n
        invariant
            from <= i <= n,
            n == chars@.len(),
            forall|k: int| 0 <= k < cur@.len() ==> cur@[k] != '\n',
            split_nl(chars@.skip(from as int)) == views_of(r@) + split_nl(
                cur@ + chars@.skip(i as int),
            ),
        decreases n - i,
    {
        let c = chars[i];
        if c == '\n' {
            proof {
                assert(cur@ + chars@.skip(i as int) =~= cur@ + seq!['\n'] + chars@.skip(
                    i as int + 1,
                ));
                lemma_split_nl_concat(cur@, chars@.skip(i as int + 1));
                assert(views_of(r@.push(cur)) =~= views_of(r@) + seq![cur@]);
                assert(views_of(r@) + (seq![cur@] + split_nl(chars@.skip(i as int + 1))) =~= (
                views_of(r@) + seq![cur@]) + split_nl(chars@.skip(i as int + 1)));
            }
            r.push(cur);
            cur = Vec::new();
        } else {
            proof {
                assert(cur@ + chars@.skip(i as int) =~= cur@.push(c) + chars@.skip(i as int + 1));
            }
            cur.push(c);
        }
        i += 1;
    }
    proof {
        assert(chars@.skip(n as int) =~= Seq::<char>::empty());
        assert(cur@ + chars@.skip(n as int) =~= cur@);
    }
    if cur.len() > 0 {
        proof {
            lemma_split_nl_single(cur@);
            assert(views_of(r@.push(cur)) =~= views_of(r@) + seq![cur@]);
            assert(views_of(r@) + seq![cur@] =~= views_of(r@) + split_nl(cur@));
        }
        r.push(cur);
    } else {
        proof {
            assert(split_nl(cur@) =~= Seq::<Seq<char>>::empty());
            assert(views_of(r@) + split_nl(cur@) =~= views_of(r@));
        }
    }
    r
}

/// Tokenizing text that starts with a whitespace-free token and one
/// whitespace character yields that token followed by the tokens of the
/// remainder.
pub proof fn lemma_ws_tokens_concat(tok: Seq<char>, w: char, rest: Seq<char>)
    requires
        tok.len() > 0,
        forall|i: int| 0 <= i < tok.len() ==> !spec_is_ws(#[trigger] tok[i]),
        spec_is_ws(w),
    ensures
        ws_tokens(tok + seq![w] + rest) == seq![tok] + ws_tokens(rest),
    decreases tok.len(),
{
    let s = tok + seq![w] + rest;
    assert(s[0] == tok[0]);
    assert(!spec_is_ws(s[0]));
    assert(s.skip(1) =~= tok.skip(1) + seq![w] + rest);
    if tok.len() == 1 {
        assert(s[1] == w);
        assert(spec_is_ws(s[1]));
        assert(tok.skip(1) + seq![w] + rest =~= seq![w] + rest);
        assert(s.skip(1)[0] == w);
        assert(s.skip(1).skip(1) =~= rest);
        assert(ws_tokens(s.skip(1)) == ws_tokens(rest));
        assert(ws_tokens(s) == seq![seq![s[0]]] + ws_tokens(s.skip(1)));
        assert(seq![s[0]] =~= tok);
        assert(ws_tokens(s) == seq![tok] + ws_tokens(rest));
    } else {
        assert(s[1] == tok[1]);
        assert(!spec_is_ws(s[1]));
        lemma_ws_tokens_concat(tok.skip(1), w, rest);
        let r2 = ws_tokens(s.skip(1));
        assert(r2 == seq![tok.skip(1)] + ws_tokens(rest));
        assert(r2[0] == tok.skip(1));
        assert(ws_tokens(s) == seq![seq![s[0]] + r2[0]] + r2.skip(1));
        assert(seq![s[0]] + r2[0] =~= tok);
        assert(r2.skip(1) =~= ws_tokens(rest));
        assert(ws_tokens(s) == seq![tok] + ws_tokens(rest));
    }
}

/// A non-empty whitespace-free text is a single token.
pub proof fn lemma_ws_tokens_single(tok: Seq<char>)
    requires
        tok.len() > 0,
        forall|i: int| 0 <= i < tok.len() ==> !spec_is_ws(#[trigger] tok[i]),
    ensures
        ws_tokens(tok) == seq![tok],
    decreases tok.len(),
{
    if tok.len() > 1 {
        assert(!spec_is_ws(tok[1]));
        lemma_ws_tokens_single(tok.skip(1));
        let r2 = ws_tokens(tok.skip(1));
        assert(r2[0] == tok.skip(1));
        assert(ws_tokens(tok) == seq![seq![tok[0]] + r2[0]] + r2.skip(1));
        assert(seq![tok[0]] + tok.skip(1) =~= tok);
        assert(r2.skip(1) =~= Seq::<Seq<char>>::empty());
        assert(seq![tok] + Seq::<Seq<char>>::empty() =~= seq![tok]);
        assert(ws_tokens(tok) == seq![tok]);
    } else {
        assert(tok.skip(1) =~= Seq::<char>::empty());
        assert(ws_tokens(Seq::<char>::empty()) =~= Seq::<Seq<char>>::empty());
        assert(ws_tokens(tok) == seq![seq![tok[0]]] + ws_tokens(tok.skip(1)));
        assert(seq![tok[0]] =~= tok);
        assert(ws_tokens(tok) =~= seq![tok]);
    }
}

fn is_ws_char(c: char) -> (r: bool)
    ensures
        r == spec_is_ws(c),
{
    c == ' ' || c == '\t' || c == '\n' || c == '\r'
}

/// The whitespace-separated tokens of `chars`, starting at `from`.
pub fn tokens_at(chars: &Vec<char>, from: usize) -> (r: Vec<Vec<char>>)
    requires
        from <= chars@.len(),
    ensures
        views_of(r@) == ws_tokens(chars@.skip(from as int)),
{
    let n = chars.len();
    let mut r: Vec<Vec<char>> = Vec::new();
    let mut cur: Vec<char> = Vec::new();
    let mut i = from;
    while i < n
        invariant
            from <= i <= n,
            n == chars@.len(),
            forall|k: int| 0 <= k < cur@.len() ==> !spec_is_ws(#[trigger] cur@[k]),
            ws_tokens(chars@.skip(from as int)) == views_of(r@) + ws_tokens(
                cur@ + chars@.skip(i as int),
            ),
        decreases n - i,
    {
        let c = chars[i];
        if is_ws_char(c) {
            if cur.len() > 0 {
                proof {
                    assert(cur@ + chars@.skip(i as int) =~= cur@ + seq![c] + chars@.skip(
                        i as int + 1,
                    ));
                    lemma_ws_tokens_concat(cur@, c, chars@.skip(i as int + 1));
                    assert(views_of(r@.push(cur)) =~= views_of(r@) + seq![cur@]);
                    assert(views_of(r@) + (seq![cur@] + ws_tokens(chars@.skip(i as int + 1))) =~= (
                    views_of(r@) + seq![cur@]) + ws_tokens(chars@.skip(i as int + 1)));
                }
                r.push(cur);
                cur = Vec::new();
            } else {
                proof {
                    assert(cur@ + chars@.skip(i as int) =~= chars@.skip(i as int));
                    assert(chars@.skip(i as int)[0] == c);
                    assert(chars@.skip(i as int).skip(1) =~= chars@.skip(i as int + 1));
                    assert(cur@ + chars@.skip(i as int + 1) =~= chars@.skip(i as int + 1));
                }
            }
        } else {
            proof {
                assert(cur@ + chars@.skip(i as int) =~= cur@.push(c) + chars@.skip(i as int + 1));
            }
            cur.push(c);
        }
        i += 1;
    }
    proof {
        assert(chars@.skip(n as int) =~= Seq::<char>::empty());
        assert(cur@ + chars@.skip(n as int) =~= cur@);
    }
    if cur.len() > 0 {
        proof {
            lemma_ws_tokens_single(cur@);
            assert(views_of(r@.push(cur)) =~= views_of(r@) + seq![cur@]);
            assert(views_of(r@) + seq![cur@] =~= views_of(r@) + ws_tokens(cur@));
        }
        r.push(cur);
    } else {
        proof {
            assert(ws_tokens(cur@) =~= Seq::<Seq<char>>::empty());
            assert(views_of(r@) + ws_tokens(cur@) =~= views_of(r@));
        }
    }
    r
}

/// A digit string denotes a non-negative number.
proof fn lemma_dec_value_nonneg(t: Seq<char>)
    requires
        all_digits(t),
    ensures
        dec_value(t) >= 0,
    decreases t.len(),
{
    if t.len() > 0 {
        assert(all_digits(t.drop_last())) by {
            assert(forall|i: int|
                0 <= i < t.len() - 1 ==> #[trigger] t.drop_last()[i] == t[i]);
        }
        lemma_dec_value_nonneg(t.drop_last());
        assert(is_digit(t.last()));
    }
}

/// A digit string denotes at least as much as any of its prefixes.
proof fn lemma_dec_value_prefix(t: Seq<char>, i: int)
    requires
        all_digits(t),
        0 <= i <= t.len(),
    ensures
        dec_value(t.take(i)) <= dec_value(t),
    decreases t.len() - i,
{
    if i < t.len() {
        assert(all_digits(t.drop_last())) by {
            assert(forall|j: int|
                0 <= j < t.len() - 1 ==> #[trigger] t.drop_last()[j] == t[j]);
        }
        if i == t.len() - 1 {
            assert(t.take(i) =~= t.drop_last());
            lemma_dec_value_nonneg(t.drop_last());
            assert(is_digit(t.last()));
        } else {
            assert(t.take(i) =~= t.drop_last().take(i));
            lemma_dec_value_prefix(t.drop_last(), i);
            lemma_dec_value_nonneg(t.drop_last());
            assert(is_digit(t.last()));
            assert(dec_value(t) >= dec_value(t.drop_last()));
        }
    } else {
        assert(t.take(i) =~= t);
    }
}

fn char_digit(c: char) -> (r: Option<u8>)
    ensures
        match r {
            Some(d) => is_digit(c) && d as int == digit_val(c),
            None => !is_digit(c),
        },
{
    match c {
        '0' => Some(0),
        '1' => Some(1),
        '2' => Some(2),
        '3' => Some(3),
        '4' => Some(4),
        '5' => Some(5),
        '6' => Some(6),
        '7' => Some(7),
        '8' => Some(8),
        '9' => Some(9),
        _ => None,
    }
}

/// Read whitespace-separated token number `idx` as a byte-sized number.
pub fn parse_u8_token(t: &Vec<char>, idx: usize) -> (r: Result<u8, ParseError>)
    ensures
        match r {
            Ok(v) => spec_parse_u8(t@, idx as int) == Ok::<int, ParseError>(v as int),
            Err(e) => spec_parse_u8(t@, idx as int) == Err::<int, ParseError>(e),
        },
{
    let n = t.len();
    if n == 0 {
        return Err(ParseError::BadNumber { token: idx });
    }
    let mut acc: u32 = 0;
    let mut i: usize = 0;
    while i < n
        invariant
            0 <= i <= n,
            n == t@.len(),
            all_digits(t@.take(i as int)),
            acc as int == dec_value(t@.take(i as int)),
            acc <= 255,
        decreases n - i,
    {
        let c = t[i];
        let d = match char_digit(c) {
            None => {
                return Err(ParseError::BadNumber { token: idx });
            },
            Some(d) => d,
        };
        let acc2: u32 = acc * 10 + (d as u32);
        proof {
            assert(t@.take(i as int + 1).drop_last() =~= t@.take(i as int));
            assert(t@.take(i as int + 1).last() == t@[i as int]);
            assert(acc2 as int == dec_value(t@.take(i as int + 1)));
        }
        if acc2 > 255 {
            proof {
                if all_digits(t@) {
                    lemma_dec_value_prefix(t@, i as int + 1);
                }
            }
            return Err(ParseError::BadNumber { token: idx });
        }
        acc = acc2;
        i += 1;
    }
    proof {
        assert(t@.take(n as int) =~= t@);
    }
    Ok(acc as u8)
}


/// The canonical decimal form is non-empty and all digits.
pub proof fn lemma_dec_digits_are_digits(n: int)
    ensures
        dec_digits(n).len() >= 1,
        all_digits(dec_digits(n)),
    decreases n,
{
    if n >= 10 {
        lemma_dec_digits_are_digits(n / 10);
        let d = dec_digits(n);
        assert forall|i: int| 0 <= i < d.len() implies is_digit(#[trigger] d[i]) by {
            if i < d.len() - 1 {
                assert(d[i] == dec_digits(n / 10)[i]);
            } else {
                assert(d[i] == digit_char(n % 10));
            }
        }
    }
}

/// Digit characters are not whitespace and not line endings.
pub proof fn lemma_digits_not_ws(t: Seq<char>)
    requires
        all_digits(t),
    ensures
        forall|i: int| 0 <= i < t.len() ==> !spec_is_ws(#[trigger] t[i]),
        forall|i: int| 0 <= i < t.len() ==> #[trigger] t[i] != '\n',
{
    assert forall|i: int| 0 <= i < t.len() implies !spec_is_ws(#[trigger] t[i]) && t[i] != '\n' by {
        assert(is_digit(t[i]));
    }
}

/// Reading back the canonical decimal form of a number yields the number.
pub proof fn lemma_dec_value_of_digits(n: int)
    requires
        n >= 0,
    ensures
        dec_value(dec_digits(n)) == n,
    decreases n,
{
    if n < 10 {
        let d = dec_digits(n);
        assert(d.drop_last() =~= Seq::<char>::empty());
        assert(dec_value(Seq::<char>::empty()) == 0);
        assert(d.last() == digit_char(n));
        assert(dec_value(d) == digit_val(digit_char(n)));
    } else {
        lemma_dec_value_of_digits(n / 10);
        let d = dec_digits(n);
        assert(d.drop_last() =~= dec_digits(n / 10));
        assert(d.last() == digit_char(n % 10));
        assert(digit_val(digit_char(n % 10)) == n % 10);
        assert((n / 10) * 10 + n % 10 == n) by (nonlinear_arith)
            requires
                n >= 10,
        ;
    }
}

/// Reading the canonical decimal form of a byte-sized number as a token
/// yields the number.
pub proof fn lemma_parse_u8_of_digits(n: int, idx: int)
    requires
        0 <= n <= 255,
    ensures
        spec_parse_u8(dec_digits(n), idx) == Ok::<int, ParseError>(n),
{
    lemma_dec_digits_are_digits(n);
    lemma_dec_value_of_digits(n);
}

/// The first line ending of a text that starts with a newline-free part
/// stands right after that part.
pub proof fn lemma_find_nl_concat(a: Seq<char>, b: Seq<char>)
    requires
        forall|i: int| 0 <= i < a.len() ==> #[trigger] a[i] != '\n',
    ensures
        find_nl(a + seq!['\n'] + b) == Some(a.len() as int),
    decreases a.len(),
{
    let s = a + seq!['\n'] + b;
    if a.len() == 0 {
        assert(s[0] == '\n');
    } else {
        assert(s[0] == a[0]);
        assert(s[0] != '\n');
        lemma_find_nl_concat(a.skip(1), b);
        assert(s.skip(1) =~= a.skip(1) + seq!['\n'] + b);
    }
}

} // verus!
