//! Reading answers of a language model: the first fenced code block of a
//! reply, and the first whole number in a reply.
use vstd::prelude::*;
use crate::text::{
    append_char, append_chars, is_ws, lines, split_lines, split_words, starts_with, string_from,
    to_chars, trim, trim_chars, views, words,
};
use vstd::string::*;

verus! {

/// The three backticks that open and close a fenced block.
pub open spec fn fence_mark() -> Seq<char> {
    seq!['`', '`', '`']
}

/// A line whose trimmed text starts with three backticks.
pub open spec fn is_fence(line: Seq<char>) -> bool {
    starts_with(trim(line), fence_mark())
}

/// The index of the first fence line at or after `from`, or `ls.len()`.
pub open spec fn fence_from(ls: Seq<Seq<char>>, from: int) -> int
    decreases ls.len() - from,
{
    if from < 0 || from >= ls.len() {
        ls.len() as int
    } else if is_fence(ls[from]) {
        from
    } else {
        fence_from(ls, from + 1)
    }
}

/// The lines of `xs`, each followed by a newline.
pub open spec fn join_lines(xs: Seq<Seq<char>>) -> Seq<char>
    decreases xs.len(),
{
    if xs.len() == 0 {
        Seq::<char>::empty()
    } else {
        join_lines(xs.drop_last()) + xs.last() + seq!['\n']
    }
}

/// The lines strictly between the first fence line and the next one (or
/// the end of the text), each followed by a newline; empty without a fence.
pub open spec fn fenced_code(ls: Seq<Seq<char>>) -> Seq<char> {
    let open = fence_from(ls, 0);
    if open >= ls.len() {
        Seq::<char>::empty()
    } else {
        join_lines(ls.subrange(open + 1, fence_from(ls, open + 1)))
    }
}

/// What `extract_code` answers when there is no code.
pub open spec fn code_error() -> Seq<char> {
    "Error: extract_code()"@
}

/// The code of the first fenced block of `input`, or the error text when
/// that code is empty.
pub open spec fn extract_code_spec(input: Seq<char>) -> Seq<char> {
    let code = fenced_code(lines(input));
    if code.len() == 0 {
        code_error()
    } else {
        code
    }
}

pub open spec fn is_digit(c: char) -> bool {
    48 <= c as u32 <= 57
}

pub open spec fn all_digits(d: Seq<char>) -> bool {
    forall|i: int| 0 <= i < d.len() ==> is_digit(#[trigger] d[i])
}

/// The number that a string of decimal digits denotes.
pub open spec fn digits_value(d: Seq<char>) -> nat
    decreases d.len(),
{
    if d.len() == 0 {
        0
    } else {
        digits_value(d.drop_last()) * 10 + ((d.last() as u32) - 48) as nat
    }
}

/// `str::parse::<i32>`: an optional `+` or `-`, then at least one decimal
/// digit and nothing else, denoting a value in the range of `i32`.
pub open spec fn parse_i32(s: Seq<char>) -> Option<i32> {
    if s.len() == 0 {
        None
    } else {
        let neg = s[0] == '-';
        let d = if s[0] == '-' || s[0] == '+' {
            s.drop_first()
        } else {
            s
        };
        let v: int = if neg {
            -(digits_value(d) as int)
        } else {
            digits_value(d) as int
        };
        if d.len() > 0 && all_digits(d) && i32::MIN <= v <= i32::MAX {
            Some(v as i32)
        } else {
            None
        }
    }
}

/// The value of the first word that parses as an `i32`, or 1 when none does.
pub open spec fn first_number(ws: Seq<Seq<char>>) -> i32
    decreases ws.len(),
{
    if ws.len() == 0 {
        1
    } else if parse_i32(ws[0]) is Some {
        parse_i32(ws[0])->0
    } else {
        first_number(ws.drop_first())
    }
}

/// The character of a decimal digit.
pub open spec fn digit_char(d: nat) -> char {
    if d == 0 { '0' }
    else if d == 1 { '1' }
    else if d == 2 { '2' }
    else if d == 3 { '3' }
    else if d == 4 { '4' }
    else if d == 5 { '5' }
    else if d == 6 { '6' }
    else if d == 7 { '7' }
    else if d == 8 { '8' }
    else { '9' }
}

/// The decimal digits of `n`, without leading zeros.
pub open spec fn digits_of(n: nat) -> Seq<char>
    decreases n,
{
    if n < 10 {
        seq![digit_char(n)]
    } else {
        digits_of(n / 10).push(digit_char(n % 10))
    }
}

/// `i32::to_string`: the decimal text of `n`, with a `-` when negative.
pub open spec fn decimal(n: int) -> Seq<char> {
    if n < 0 {
        seq!['-'] + digits_of((-n) as nat)
    } else {
        digits_of(n as nat)
    }
}

proof fn lemma_fence_from(ls: Seq<Seq<char>>, from: int, k: int)
    requires
        0 <= from <= k <= ls.len(),
        forall|j: int| from <= j < k ==> !is_fence(#[trigger] ls[j]),
        k == ls.len() || is_fence(ls[k]),
    ensures
        fence_from(ls, from) == k,
    decreases k - from,
{
    if from < k {
        lemma_fence_from(ls, from + 1, k);
    }
}

/// The code is that of the first block: with no fence line before the
/// opening one and none inside, the lines between the opening fence and the
/// next fence line are the code, whatever follows that closing line; an
/// unclosed first block runs to the end; lines without a fence give none.
pub proof fn lemma_first_block(
    pre: Seq<Seq<char>>,
    open: Seq<char>,
    body: Seq<Seq<char>>,
    close: Seq<char>,
    post: Seq<Seq<char>>,
)
    requires
        forall|i: int| 0 <= i < pre.len() ==> !is_fence(#[trigger] pre[i]),
        is_fence(open),
        forall|i: int| 0 <= i < body.len() ==> !is_fence(#[trigger] body[i]),
        is_fence(close),
    ensures
        fenced_code(pre + seq![open] + body + seq![close] + post) == join_lines(body),
        fenced_code(pre + seq![open] + body) == join_lines(body),
        fenced_code(pre) == Seq::<char>::empty(),
{
    let o = pre.len() as int;
    let c = o + 1 + body.len();
    let ls = pre + seq![open] + body + seq![close] + post;
    let us = pre + seq![open] + body;
    assert forall|j: int| 0 <= j < o implies !is_fence(#[trigger] ls[j]) by {
        assert(ls[j] == pre[j]);
    }
    assert(ls[o] == open);
    lemma_fence_from(ls, 0, o);
    assert forall|j: int| o + 1 <= j < c implies !is_fence(#[trigger] ls[j]) by {
        assert(ls[j] == body[j - o - 1]);
    }
    assert(ls[c] == close);
    lemma_fence_from(ls, o + 1, c);
    assert(ls.subrange(o + 1, c) =~= body);
    assert forall|j: int| 0 <= j < o implies !is_fence(#[trigger] us[j]) by {
        assert(us[j] == pre[j]);
    }
    assert(us[o] == open);
    lemma_fence_from(us, 0, o);
    assert forall|j: int| o + 1 <= j < us.len() implies !is_fence(#[trigger] us[j]) by {
        assert(us[j] == body[j - o - 1]);
    }
    lemma_fence_from(us, o + 1, us.len() as int);
    assert(us.subrange(o + 1, us.len() as int) =~= body);
    lemma_fence_from(pre, 0, o);
}

/// What `extract_code` answers for a text whose lines hold a first block:
/// the code of that block, whatever follows it, or the error text when the
/// block is empty.
pub proof fn lemma_extract_first_block(
    input: Seq<char>,
    pre: Seq<Seq<char>>,
    open: Seq<char>,
    body: Seq<Seq<char>>,
    close: Seq<char>,
    post: Seq<Seq<char>>,
)
    requires
        lines(input) == pre + seq![open] + body + seq![close] + post,
        forall|i: int| 0 <= i < pre.len() ==> !is_fence(#[trigger] pre[i]),
        is_fence(open),
        forall|i: int| 0 <= i < body.len() ==> !is_fence(#[trigger] body[i]),
        is_fence(close),
    ensures
        extract_code_spec(input) == (if body.len() == 0 {
            code_error()
        } else {
            join_lines(body)
        }),
{
    lemma_first_block(pre, open, body, close, post);
    if body.len() > 0 {
        assert(join_lines(body).len() > 0);
    }
}

proof fn lemma_digits_prefix(d: Seq<char>, k: int)
    requires
        0 <= k <= d.len(),
    ensures
        digits_value(d) >= digits_value(d.take(k)),
    decreases d.len() - k,
{
    if k < d.len() {
        lemma_digits_prefix(d, k + 1);
        assert(d.take(k + 1).drop_last() =~= d.take(k));
    } else {
        assert(d.take(k) =~= d);
    }
}

proof fn lemma_digit_char(d: nat)
    requires
        d < 10,
    ensures
        is_digit(digit_char(d)),
        (digit_char(d) as u32) - 48 == d,
{
}

/// The decimal digits of `n` are digits and denote `n`.
pub proof fn lemma_digits_of(n: nat)
    ensures
        digits_of(n).len() >= 1,
        all_digits(digits_of(n)),
        digits_value(digits_of(n)) == n,
    decreases n,
{
    if n < 10 {
        lemma_digit_char(n);
        let d = digits_of(n);
        assert(d.drop_last() =~= Seq::<char>::empty());
        assert(digits_value(Seq::<char>::empty()) == 0);
        assert(digits_value(d) == digits_value(d.drop_last()) * 10 + ((d.last() as u32) - 48) as nat);
    } else {
        lemma_digits_of(n / 10);
        lemma_digit_char(n % 10);
        let d = digits_of(n);
        assert(d.drop_last() =~= digits_of(n / 10));
        assert(d.last() == digit_char(n % 10));
        assert(digits_value(d) == digits_value(digits_of(n / 10)) * 10 + (n % 10));
        assert forall|i: int| 0 <= i < d.len() implies is_digit(#[trigger] d[i]) by {
            if i < d.len() - 1 {
                assert(d[i] == digits_of(n / 10)[i]);
            }
        }
    }
}

/// Formatting an `i32` in decimal and parsing the text back gives the same
/// number.
pub proof fn lemma_parse_decimal(n: i32)
    ensures
        parse_i32(decimal(n as int)) == Some(n),
{
    let s = decimal(n as int);
    if n < 0 {
        let m = (-n) as nat;
        lemma_digits_of(m);
        assert(s.drop_first() =~= digits_of(m));
        assert(s[0] == '-');
    } else {
        lemma_digits_of(n as nat);
        assert(is_digit(s[0]));
    }
}

proof fn lemma_words_single(s: Seq<char>)
    requires
        s.len() > 0,
        forall|i: int| 0 <= i < s.len() ==> !is_ws(#[trigger] s[i]),
    ensures
        words(s) == seq![s],
    decreases s.len(),
{
    if s.len() == 1 {
        assert(s.drop_last() =~= Seq::<char>::empty());
        assert(words(s.drop_last()) =~= Seq::<Seq<char>>::empty());
        assert(seq![s.last()] =~= s);
    } else {
        let init = s.drop_last();
        assert forall|i: int| 0 <= i < init.len() implies !is_ws(#[trigger] init[i]) by {
            assert(init[i] == s[i]);
        }
        lemma_words_single(init);
        assert(!is_ws(s[s.len() - 2]));
        assert(init.push(s.last()) =~= s);
        assert(words(s) =~= seq![s]);
    }
}

/// The decimal text of a number holds no whitespace.
proof fn lemma_decimal_no_ws(n: int)
    requires
        i32::MIN <= n <= i32::MAX,
    ensures
        decimal(n).len() > 0,
        forall|i: int| 0 <= i < decimal(n).len() ==> !is_ws(#[trigger] decimal(n)[i]),
{
    let m: nat = if n < 0 {
        (-n) as nat
    } else {
        n as nat
    };
    lemma_digits_of(m);
    let d = decimal(n);
    assert forall|i: int| 0 <= i < d.len() implies !is_ws(#[trigger] d[i]) by {
        if n < 0 {
            if i > 0 {
                assert(d[i] == digits_of(m)[i - 1]);
                assert(is_digit(digits_of(m)[i - 1]));
            }
        } else {
            assert(is_digit(digits_of(m)[i]));
        }
    }
}

/// Reading the number back from a text holding only the decimal text of an
/// `i32` gives that number.
pub proof fn lemma_extract_number_of_decimal(n: i32)
    ensures
        first_number(words(decimal(n as int))) == n,
{
    lemma_decimal_no_ws(n as int);
    lemma_words_single(decimal(n as int));
    lemma_parse_decimal(n);
    let ws = words(decimal(n as int));
    assert(ws[0] == decimal(n as int));
}

proof fn lemma_words_nonempty(s: Seq<char>)
    requires
        s.len() > 0,
        !is_ws(s.last()),
    ensures
        words(s).len() > 0,
    decreases s.len(),
{
    if s.len() >= 2 && !is_ws(s[s.len() - 2]) {
        let init = s.drop_last();
        assert(init.last() == s[s.len() - 2]);
        lemma_words_nonempty(init);
    }
}

/// The words of two texts joined by a space are the words of the first
/// followed by the words of the second.
pub proof fn lemma_words_append(a: Seq<char>, b: Seq<char>)
    ensures
        words(a + seq![' '] + b) == words(a) + words(b),
    decreases b.len(),
{
    let x = a + seq![' '] + b;
    assert(is_ws(' '));
    if b.len() == 0 {
        assert(x.drop_last() =~= a);
        assert(words(b) =~= Seq::<Seq<char>>::empty());
        assert(words(a) + words(b) =~= words(a));
    } else {
        let b1 = b.drop_last();
        let c = b.last();
        assert(x.drop_last() =~= a + seq![' '] + b1);
        assert(x.last() == c);
        lemma_words_append(a, b1);
        let wa = words(a);
        let wb1 = words(b1);
        if x.len() >= 2 {
            if b1.len() > 0 {
                assert(x[x.len() - 2] == b1.last());
                assert(b[b.len() - 2] == b1.last());
            } else {
                assert(x[x.len() - 2] == ' ');
            }
        }
        if is_ws(c) {
        } else if x.len() >= 2 && !is_ws(x[x.len() - 2]) {
            assert(b1.len() > 0);
            lemma_words_nonempty(b1);
            let prev = wa + wb1;
            assert(prev.last() == wb1.last());
            assert(prev.update(prev.len() - 1, prev.last().push(c)) =~= wa + wb1.update(
                wb1.len() - 1,
                wb1.last().push(c),
            ));
        } else {
            assert((wa + wb1).push(seq![c]) =~= wa + wb1.push(seq![c]));
        }
    }
}

proof fn lemma_first_number_prefix(xs: Seq<Seq<char>>, ys: Seq<Seq<char>>)
    requires
        exists|k: int| 0 <= k < xs.len() && parse_i32(#[trigger] xs[k]) is Some,
    ensures
        first_number(xs + ys) == first_number(xs),
    decreases xs.len(),
{
    let zs = xs + ys;
    assert(zs[0] == xs[0]);
    if parse_i32(xs[0]) is None {
        let k = choose|k: int| 0 <= k < xs.len() && parse_i32(#[trigger] xs[k]) is Some;
        assert(xs.drop_first()[k - 1] == xs[k]);
        assert(zs.drop_first() =~= xs.drop_first() + ys);
        lemma_first_number_prefix(xs.drop_first(), ys);
    }
}

/// Once a text holds a number, appending a space and more text does not
/// change the number found.
pub proof fn lemma_number_kept_by_appending(a: Seq<char>, b: Seq<char>)
    requires
        exists|k: int| 0 <= k < words(a).len() && parse_i32(#[trigger] words(a)[k]) is Some,
    ensures
        first_number(words(a + seq![' '] + b)) == first_number(words(a)),
{
    lemma_words_append(a, b);
    lemma_first_number_prefix(words(a), words(b));
}

/// Whether the trimmed line starts with three backticks.
fn is_fence_line(line: &[char]) -> (res: bool)
    ensures
        res == is_fence(line@),
{
    let t = trim_chars(line);
    let r = t.len() >= 3 && t[0] == '`' && t[1] == '`' && t[2] == '`';
    if r {
        assert(t@.take(3) =~= fence_mark());
    } else if t.len() >= 3 {
        assert(t@.take(3)[0] == t@[0]);
        assert(t@.take(3)[1] == t@[1]);
        assert(t@.take(3)[2] == t@[2]);
        assert(t@.take(3) != fence_mark());
    }
    r
}

/// The code, or the error text when the code is empty.
fn code_or_error(code: String) -> (res: String)
    ensures
        res@ == (if code@.len() == 0 {
            code_error()
        } else {
            code@
        }),
{
    if code.as_str().unicode_len() == 0 {
        String::from_str("Error: extract_code()")
    } else {
        code
    }
}

/// Returns the code inside the first block fenced by lines that start with
/// three backticks: each line up to the next fence line, followed by a
/// newline. Without such a block, or when it is empty, returns
/// `"Error: extract_code()"`.
pub fn extract_code(input: &str) -> (res: String)
    ensures
        res@ == extract_code_spec(input@),
{
    let chars = to_chars(input);
    let ls = split_lines(chars.as_slice());
    let ghost lv = lines(input@);
    let mut code = String::new();
    let mut in_block = false;
    let ghost mut open: int = 0;
    let mut k: usize = 0;
    while k < ls.len()
        invariant
            views(ls@) == lv,
            lv == lines(input@),
            k <= ls@.len(),
            !in_block ==> forall|j: int| 0 <= j < k ==> !is_fence(#[trigger] lv[j]),
            !in_block ==> code@.len() == 0,
            in_block ==> 0 <= open < k,
            in_block ==> fence_from(lv, 0) == open,
            in_block ==> forall|j: int| open < j < k ==> !is_fence(#[trigger] lv[j]),
            in_block ==> code@ == join_lines(lv.subrange(open + 1, k as int)),
        decreases ls@.len() - k,
    {
        assert(views(ls@)[k as int] == ls@[k as int]@);
        let fence = is_fence_line(ls[k].as_slice());
        if fence {
            if in_block {
                proof {
                    lemma_fence_from(lv, open + 1, k as int);
                    assert(fenced_code(lv) == code@);
                }
                return code_or_error(code);
            }
            proof {
                lemma_fence_from(lv, 0, k as int);
                open = k as int;
                assert(lv.subrange(open + 1, k + 1) =~= Seq::<Seq<char>>::empty());
            }
            in_block = true;
        } else if in_block {
            append_chars(&mut code, ls[k].as_slice());
            append_char(&mut code, '\n');
            assert(lv.subrange(open + 1, k + 1).drop_last() =~= lv.subrange(open + 1, k as int));
        }
        k = k + 1;
    }
    proof {
        if in_block {
            lemma_fence_from(lv, open + 1, lv.len() as int);
        } else {
            lemma_fence_from(lv, 0, lv.len() as int);
        }
    }
    code_or_error(code)
}

/// `str::parse::<i32>`, on characters.
pub fn parse_i32_chars(w: &[char]) -> (res: Option<i32>)
    ensures
        res == parse_i32(w@),
{
    let n = w.len();
    if n == 0 {
        return None;
    }
    let neg = w[0] == '-';
    let start: usize = if w[0] == '-' || w[0] == '+' {
        1
    } else {
        0
    };
    let ghost d = if w@[0] == '-' || w@[0] == '+' {
        w@.drop_first()
    } else {
        w@
    };
    assert(d =~= w@.subrange(start as int, n as int));
    if start == n {
        return None;
    }
    let mut v: i64 = 0;
    let mut i: usize = start;
    assert(d.take(0) =~= Seq::<char>::empty());
    while i < n
        invariant
            start <= i <= n == w@.len(),
            n > 0,
            neg == (w@[0] == '-'),
            d == (if w@[0] == '-' || w@[0] == '+' {
                w@.drop_first()
            } else {
                w@
            }),
            d == w@.subrange(start as int, n as int),
            v == digits_value(d.take(i - start)),
            all_digits(d.take(i - start)),
            v <= 2147483648,
        decreases n - i,
    {
        let c = w[i];
        assert(d[i - start] == c);
        if !((c as u32) >= 48 && (c as u32) <= 57) {
            assert(!all_digits(d));
            return None;
        }
        let ghost t = d.take(i + 1 - start);
        assert(t.drop_last() =~= d.take(i - start));
        assert(t.last() == c);
        v = v * 10 + ((c as u32) - 48) as i64;
        assert forall|j: int| 0 <= j < t.len() implies is_digit(#[trigger] t[j]) by {
            if j < t.len() - 1 {
                assert(t[j] == d.take(i - start)[j]);
            }
        }
        if v > 2147483648 {
            proof {
                lemma_digits_prefix(d, i + 1 - start);
            }
            return None;
        }
        i = i + 1;
    }
    assert(d.take(n - start) =~= d);
    if neg {
        Some((-v) as i32)
    } else if v <= 2147483647 {
        Some(v as i32)
    } else {
        None
    }
}

/// Returns the first whitespace-separated word of `input` that parses as an
/// `i32`, or 1 when there is none.
pub fn extract_number(input: &str) -> (res: i32)
    ensures
        res == first_number(words(input@)),
{
    let chars = to_chars(input);
    let ws = split_words(chars.as_slice());
    let ghost wv = words(input@);
    let mut k: usize = 0;
    assert(wv.skip(0) =~= wv);
    while k < ws.len()
        invariant
            views(ws@) == wv,
            wv == words(input@),
            k <= ws@.len(),
            first_number(wv) == first_number(wv.skip(k as int)),
        decreases ws@.len() - k,
    {
        assert(views(ws@)[k as int] == ws@[k as int]@);
        assert(wv.skip(k as int)[0] == wv[k as int]);
        assert(wv.skip(k as int).drop_first() =~= wv.skip(k + 1));
        if let Some(n) = parse_i32_chars(ws[k].as_slice()) {
            return n;
        }
        k = k + 1;
    }
    assert(wv.skip(k as int) =~= Seq::<Seq<char>>::empty());
    1
}

/// Writes the decimal digits of `m` after the given characters.
fn push_digits(m: u64, out: &mut Vec<char>)
    ensures
        final(out)@ == old(out)@ + digits_of(m as nat),
    decreases m,
{
    if m >= 10 {
        push_digits(m / 10, out);
    }
    let d = m % 10;
    let c = if d == 0 { '0' }
        else if d == 1 { '1' }
        else if d == 2 { '2' }
        else if d == 3 { '3' }
        else if d == 4 { '4' }
        else if d == 5 { '5' }
        else if d == 6 { '6' }
        else if d == 7 { '7' }
        else if d == 8 { '8' }
        else { '9' };
    out.push(c);
    proof {
        if m >= 10 {
            assert(old(out)@ + digits_of(m as nat) =~= old(out)@ + digits_of((m / 10) as nat) + seq![c]);
        } else {
            assert(digits_of(m as nat) =~= seq![c]);
        }
    }
}

/// `i32::to_string`: the decimal text of `n`.
pub fn i32_to_string(n: i32) -> (res: String)
    ensures
        res@ == decimal(n as int),
{
    let mut out: Vec<char> = Vec::new();
    let m: u64 = if n < 0 {
        out.push('-');
        (-(n as i64)) as u64
    } else {
        n as u64
    };
    push_digits(m, &mut out);
    if n < 0 {
        assert(out@ =~= seq!['-'] + digits_of((-n) as nat));
    } else {
        assert(out@ =~= digits_of(n as nat));
    }
    string_from(out.as_slice())
}

} // verus!
