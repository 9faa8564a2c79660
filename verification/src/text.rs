//! Verified text primitives: whitespace classification, trimming,
//! whitespace tokenization, joining tokens, and parsing of non-negative
//! decimal line numbers. These define the grammar that every file format
//! of the library is built from.

use vstd::prelude::*;

verus! {

/// The Unicode `White_Space` code points, the characters that separate
/// tokens and that trimming removes.
pub open spec fn is_space_char(c: char) -> bool {
    let u = c as u32;
    u == 0x20 || (0x09 <= u && u <= 0x0D) || u == 0x85 || u == 0xA0 || u == 0x1680 || (0x2000
        <= u && u <= 0x200A) || u == 0x2028 || u == 0x2029 || u == 0x202F || u == 0x205F || u
        == 0x3000
}

/// Runtime whitespace test, equal to [`is_space_char`].
pub fn is_space(c: char) -> (r: bool)
    ensures
        r == is_space_char(c),
{
    let u = c as u32;
    u == 0x20 || (0x09 <= u && u <= 0x0D) || u == 0x85 || u == 0xA0 || u == 0x1680 || (0x2000
        <= u && u <= 0x200A) || u == 0x2028 || u == 0x2029 || u == 0x202F || u == 0x205F || u
        == 0x3000
}

/// The sequence with its leading whitespace removed.
pub open spec fn trim_start_spec(s: Seq<char>) -> Seq<char>
    decreases s.len(),
{
    if s.len() > 0 && is_space_char(s[0]) {
        trim_start_spec(s.drop_first())
    } else {
        s
    }
}

/// The sequence with its trailing whitespace removed.
pub open spec fn trim_end_spec(s: Seq<char>) -> Seq<char>
    decreases s.len(),
{
    if s.len() > 0 && is_space_char(s.last()) {
        trim_end_spec(s.drop_last())
    } else {
        s
    }
}

/// The sequence with whitespace removed from both ends.
pub open spec fn trim_spec(s: Seq<char>) -> Seq<char> {
    trim_end_spec(trim_start_spec(s))
}

proof fn lemma_trim_start_at(s: Seq<char>, a: int)
    requires
        0 <= a <= s.len(),
        forall|k: int| 0 <= k < a ==> is_space_char(s[k]),
        a == s.len() || !is_space_char(s[a]),
    ensures
        trim_start_spec(s) == s.skip(a),
    decreases a,
{
    if a == 0 {
        if s.len() == 0 || !is_space_char(s[0]) {
            assert(trim_start_spec(s) == s);
        }
        assert(s.skip(0) =~= s);
    } else {
        lemma_trim_start_at(s.drop_first(), a - 1);
        assert(s.drop_first().skip(a - 1) =~= s.skip(a));
    }
}

proof fn lemma_trim_end_at(s: Seq<char>, b: int)
    requires
        0 <= b <= s.len(),
        forall|k: int| b <= k < s.len() ==> is_space_char(s[k]),
        b == 0 || !is_space_char(s[b - 1]),
    ensures
        trim_end_spec(s) == s.take(b),
    decreases s.len() - b,
{
    if b == s.len() {
        if s.len() == 0 || !is_space_char(s.last()) {
            assert(trim_end_spec(s) == s);
        }
        assert(s.take(b) =~= s);
    } else {
        lemma_trim_end_at(s.drop_last(), b);
        assert(s.drop_last().take(b) =~= s.take(b));
    }
}

/// Copies `s` without its leading and trailing whitespace.
pub fn trim_str(s: &str) -> (r: String)
    ensures
        r@ == trim_spec(s@),
{
    let n = s.unicode_len();
    let mut a: usize = 0;
    while a < n && is_space(s.get_char(a))
        invariant
            n == s@.len(),
            a <= n,
            forall|k: int| 0 <= k < a ==> is_space_char(s@[k]),
        decreases n - a,
    {
        a = a + 1;
    }
    let mut b: usize = n;
    while b > a && is_space(s.get_char(b - 1))
        invariant
            n == s@.len(),
            a <= b <= n,
            forall|k: int| b <= k < n ==> is_space_char(s@[k]),
        decreases b,
    {
        b = b - 1;
    }
    let out = s.substring_char(a, b).to_owned();
    proof {
        lemma_trim_start_at(s@, a as int);
        let t = s@.skip(a as int);
        lemma_trim_end_at(t, b - a);
        assert(t.take(b - a) =~= s@.subrange(a as int, b as int));
    }
    out
}

/// The whitespace-separated tokens of `s`, in order. A token is a maximal
/// run of non-whitespace characters; tokens are never empty.
pub open spec fn tokens_of(s: Seq<char>) -> Seq<Seq<char>>
    decreases s.len(),
{
    if s.len() == 0 {
        Seq::empty()
    } else {
        let prefix = tokens_of(s.drop_last());
        let c = s.last();
        if is_space_char(c) {
            prefix
        } else if s.len() == 1 || is_space_char(s[s.len() - 2]) {
            prefix.push(seq![c])
        } else {
            prefix.update(prefix.len() - 1, prefix.last().push(c))
        }
    }
}

/// Splits `s` into its whitespace-separated tokens.
pub fn split_tokens(s: &str) -> (tokens: Vec<String>)
    ensures
        tokens.deep_view() == tokens_of(s@),
{
    let n = s.unicode_len();
    let mut tokens: Vec<String> = Vec::new();
    let mut start: Option<usize> = None;
    let mut i: usize = 0;
    while i < n
        invariant
            n == s@.len(),
            i <= n,
            start is None ==> tokens.deep_view() == tokens_of(s@.take(i as int)),
            start is None ==> (i == 0 || is_space_char(s@[i as int - 1])),
            start is Some ==> start->0 < i,
            start is Some ==> tokens.deep_view().push(
                s@.subrange(start->0 as int, i as int),
            ) == tokens_of(s@.take(i as int)),
            start is Some ==> (start->0 == 0 || is_space_char(s@[start->0 as int - 1])),
            start is Some ==> forall|j: int| start->0 <= j < i ==> !is_space_char(s@[j]),
        decreases n - i,
    {
        let ghost pre_toks = tokens.deep_view();
        let c = s.get_char(i);
        proof {
            assert(s@.take(i as int + 1).drop_last() =~= s@.take(i as int));
            assert(s@.take(i as int + 1).last() == s@[i as int]);
        }
        if is_space(c) {
            if let Some(k) = start {
                let tok = s.substring_char(k, i).to_owned();
                tokens.push(tok);
                start = None;
                proof {
                    assert(tokens.deep_view() =~= pre_toks.push(
                        s@.subrange(k as int, i as int),
                    ));
                }
            }
        } else {
            if start.is_none() {
                start = Some(i);
                proof {
                    assert(s@.subrange(i as int, i as int + 1) =~= seq![s@[i as int]]);
                }
            } else {
                proof {
                    let k = start->0 as int;
                    assert(s@.subrange(k, i as int).push(s@[i as int]) =~= s@.subrange(
                        k,
                        i as int + 1,
                    ));
                    let pre = tokens_of(s@.take(i as int));
                    assert(pre.len() > 0);
                    assert(pre.update(pre.len() - 1, pre.last().push(s@[i as int]))
                        =~= tokens.deep_view().push(s@.subrange(k, i as int + 1)));
                }
            }
        }
        i = i + 1;
    }
    proof {
        assert(s@.take(n as int) =~= s@);
    }
    if let Some(k) = start {
        let ghost pre_toks = tokens.deep_view();
        let tok = s.substring_char(k, n).to_owned();
        tokens.push(tok);
        proof {
            assert(tokens.deep_view() =~= pre_toks.push(s@.subrange(k as int, n as int)));
        }
    }
    tokens
}

/// The tokens joined back together with single spaces between them.
pub open spec fn join_spaces(toks: Seq<Seq<char>>) -> Seq<char>
    decreases toks.len(),
{
    if toks.len() == 0 {
        Seq::empty()
    } else if toks.len() == 1 {
        toks[0]
    } else {
        join_spaces(toks.drop_last()) + seq![' '] + toks.last()
    }
}

/// Joins the tokens from `toks[from..]` with single spaces.
pub fn join_tokens(toks: &Vec<String>, from: usize) -> (r: String)
    requires
        from <= toks@.len(),
    ensures
        r@ == join_spaces(toks.deep_view().skip(from as int)),
{
    let ghost all = toks.deep_view().skip(from as int);
    let mut r = String::new();
    let mut i: usize = from;
    while i < toks.len()
        invariant
            from <= i <= toks@.len(),
            all == toks.deep_view().skip(from as int),
            r@ == join_spaces(all.take(i - from)),
        decreases toks@.len() - i,
    {
        if i > from {
            r.append(" ");
            proof {
                reveal_strlit(" ");
                assert(" "@ =~= seq![' ']);
            }
        }
        r.append(toks[i].as_str());
        proof {
            assert(all.take(i + 1 - from).drop_last() =~= all.take(i - from));
            assert(all.take(i + 1 - from).last() == toks.deep_view()[i as int]);
            if i > from {
                assert(r@ =~= join_spaces(all.take(i - from)) + seq![' ']
                    + toks.deep_view()[i as int]);
            }
        }
        i = i + 1;
    }
    proof {
        assert(all.take(toks@.len() - from) =~= all);
    }
    r
}

/// The index of the first whitespace character of `s`, or `s.len()` if
/// there is none.
pub open spec fn first_space_index(s: Seq<char>) -> int
    decreases s.len(),
{
    if s.len() == 0 {
        0
    } else if is_space_char(s[0]) {
        0
    } else {
        1 + first_space_index(s.drop_first())
    }
}

proof fn lemma_first_space_at(s: Seq<char>, j: int)
    requires
        0 <= j <= s.len(),
        forall|k: int| 0 <= k < j ==> !is_space_char(s[k]),
        j == s.len() || is_space_char(s[j]),
    ensures
        first_space_index(s) == j,
    decreases j,
{
    if j == 0 {
    } else {
        lemma_first_space_at(s.drop_first(), j - 1);
    }
}

/// Finds the index of the first whitespace character of `s`, or the
/// character length of `s` if there is none.
pub fn first_space(s: &str) -> (j: usize)
    ensures
        j == first_space_index(s@),
        j <= s@.len(),
{
    let n = s.unicode_len();
    let mut j: usize = 0;
    while j < n && !is_space(s.get_char(j))
        invariant
            n == s@.len(),
            j <= n,
            forall|k: int| 0 <= k < j ==> !is_space_char(s@[k]),
        decreases n - j,
    {
        j = j + 1;
    }
    proof {
        lemma_first_space_at(s@, j as int);
    }
    j
}

/// Extracts the character range `[from, to)` of `s` as an owned string.
pub fn substring(s: &str, from: usize, to: usize) -> (r: String)
    requires
        from <= to <= s@.len(),
    ensures
        r@ == s@.subrange(from as int, to as int),
{
    s.substring_char(from, to).to_owned()
}

/// Whether `c` is an ASCII decimal digit.
pub open spec fn is_dec_digit(c: char) -> bool {
    0x30 <= c as u32 && c as u32 <= 0x39
}

/// The numeric value of the digit `c`.
pub open spec fn digit_value(c: char) -> int {
    c as u32 - 0x30
}

/// The value of a digit string read in base ten.
pub open spec fn digits_value(s: Seq<char>) -> int
    decreases s.len(),
{
    if s.len() == 0 {
        0
    } else {
        digits_value(s.drop_last()) * 10 + digit_value(s.last())
    }
}

/// The digits of a number token: an optional leading plus sign is
/// accepted and skipped.
pub open spec fn number_body(s: Seq<char>) -> Seq<char> {
    if s.len() > 0 && s[0] == '+' {
        s.drop_first()
    } else {
        s
    }
}

/// Whether `s` is a well-formed line-number token: an optional plus sign,
/// then one or more decimal digits, denoting a value that fits in `usize`.
pub open spec fn is_line_number_token(s: Seq<char>) -> bool {
    let d = number_body(s);
    d.len() > 0 && (forall|i: int| 0 <= i < d.len() ==> is_dec_digit(d[i])) && digits_value(d)
        <= usize::MAX
}

/// Appending digits never decreases the value of a digit string.
proof fn lemma_digits_value_monotone(s: Seq<char>, i: int)
    requires
        0 <= i <= s.len(),
        forall|k: int| 0 <= k < s.len() ==> is_dec_digit(s[k]),
    ensures
        0 <= digits_value(s.take(i)) <= digits_value(s),
    decreases s.len() - i,
{
    if i == s.len() {
        assert(s.take(i) =~= s);
        lemma_digits_value_nonneg(s);
    } else {
        lemma_digits_value_monotone(s, i + 1);
        lemma_digits_value_nonneg(s.take(i));
        assert(s.take(i + 1).drop_last() =~= s.take(i));
        assert(digits_value(s.take(i + 1)) == digits_value(s.take(i)) * 10 + digit_value(
            s[i],
        ));
    }
}

proof fn lemma_digits_value_nonneg(s: Seq<char>)
    requires
        forall|k: int| 0 <= k < s.len() ==> is_dec_digit(s[k]),
    ensures
        digits_value(s) >= 0,
    decreases s.len(),
{
    if s.len() > 0 {
        lemma_digits_value_nonneg(s.drop_last());
    }
}

/// Parses `tok` as a non-negative line number. Returns `Some` exactly on
/// well-formed tokens, with the value the digits denote.
pub fn parse_line_number(tok: &str) -> (r: Option<usize>)
    ensures
        r is Some <==> is_line_number_token(tok@),
        r is Some ==> r->0 == digits_value(number_body(tok@)),
{
    let n = tok.unicode_len();
    let start: usize = if n > 0 && tok.get_char(0) == '+' {
        1
    } else {
        0
    };
    let ghost body = number_body(tok@);
    proof {
        assert(body =~= tok@.skip(start as int));
    }
    if start == n {
        return None;
    }
    let mut val: usize = 0;
    let mut i: usize = start;
    while i < n
        invariant
            n == tok@.len(),
            start <= i <= n,
            start < n,
            body == number_body(tok@),
            body == tok@.skip(start as int),
            forall|k: int| 0 <= k < i - start ==> is_dec_digit(body[k]),
            val == digits_value(body.take(i - start)),
        decreases n - i,
    {
        let c = tok.get_char(i);
        let u = c as u32;
        if u < 0x30 || u > 0x39 {
            proof {
                assert(!is_dec_digit(body[i - start]));
            }
            return None;
        }
        let d = (u - 0x30) as usize;
        proof {
            assert(body.take(i + 1 - start).drop_last() =~= body.take(i - start));
            assert(body.take(i + 1 - start).last() == body[i - start]);
        }
        let step = val.checked_mul(10);
        let next = match step {
            Some(v) => v.checked_add(d),
            None => None,
        };
        match next {
            Some(v) => {
                val = v;
            },
            None => {
                proof {
                    let j = i + 1 - start;
                    assert(digits_value(body.take(j)) == val * 10 + d);
                    assert(digits_value(body.take(j)) > usize::MAX);
                    if forall|k: int| 0 <= k < body.len() ==> is_dec_digit(body[k]) {
                        lemma_digits_value_monotone(body, j);
                    }
                }
                return None;
            },
        }
        i = i + 1;
    }
    proof {
        assert(body.take(n - start) =~= body);
    }
    Some(val)
}

} // verus!
